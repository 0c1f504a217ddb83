use ksip::phone_state::CallInfo;
use ksip::settings::CustomButton;
use ksip::window::{call_key_command, panel_extended, WindowWatch};

fn call(id: &str, state: &str) -> CallInfo {
    CallInfo {
        id: id.into(),
        peer: format!("sip:{id}@pbx"),
        name: String::new(),
        state: state.into(),
        held: false,
        duration: 0,
        codec: String::new(),
        secure: false,
        transport: "UDP".into(),
        line: 1,
    }
}

#[test]
fn a_new_call_brings_the_window_out_once() {
    let mut watch = WindowWatch::new();
    let calls = vec![call("a", "INCOMING")];
    let first = watch.step(&calls, false, false, -1, 0);
    assert!(first.show);
    assert!(first.notify.is_empty());
    assert!(!first.hide);
    let second = watch.step(&calls, false, true, -1, 500);
    assert!(!second.show);
    assert!(second.notify.is_empty());
    assert_eq!(watch.incoming, vec!["a".to_string()]);
}

#[test]
fn an_announced_call_brings_the_window_out_when_answered() {
    let mut watch = WindowWatch::new();
    let ringing = vec![call("a", "ESTABLISHED"), call("b", "INCOMING")];
    let first = watch.step(&ringing, true, false, -1, 0);
    assert_eq!(first.notify, vec!["b".to_string()]);
    assert!(!first.show);
    assert_eq!(watch.announced, vec!["b".to_string()]);
    // While it rings nothing more happens.
    let again = watch.step(&ringing, true, false, -1, 500);
    assert!(again.notify.is_empty() && !again.show);
    let answered = vec![call("a", "ESTABLISHED"), call("b", "ESTABLISHED")];
    let third = watch.step(&answered, true, false, -1, 1000);
    assert!(third.show);
    assert!(watch.announced.is_empty());
    // With the window out, a new call is shown rather than announced.
    let fourth = watch.step(&[call("c", "INCOMING")], true, true, -1, 1500);
    assert!(fourth.show && fourth.notify.is_empty());
}

#[test]
fn the_window_goes_to_the_tray_after_the_last_call() {
    let mut watch = WindowWatch::new();
    watch.step(&[call("a", "ESTABLISHED")], false, true, 5, 0);
    let ended = watch.step(&[], false, true, 5, 1000);
    assert!(!ended.hide);
    assert_eq!(watch.hide_at, Some(6000));
    assert!(!watch.step(&[], false, true, 5, 5999).hide);
    assert!(watch.step(&[], false, true, 5, 6000).hide);
    assert_eq!(watch.hide_at, None);
    // A new call calls it off.
    watch.step(&[call("b", "ESTABLISHED")], false, true, 5, 7000);
    watch.step(&[], false, true, 5, 8000);
    watch.step(&[call("c", "INCOMING")], false, true, 5, 9000);
    assert_eq!(watch.hide_at, None);
    // Below zero it never goes.
    let mut never = WindowWatch::new();
    never.step(&[call("a", "ESTABLISHED")], false, true, -1, 0);
    never.step(&[], false, true, -1, 1000);
    assert_eq!(never.hide_at, None);
}

#[test]
fn the_call_key_answers_while_a_call_rings() {
    assert_eq!(call_key_command(&[]), "HANGUP");
    assert_eq!(call_key_command(&[call("a", "ESTABLISHED")]), "HANGUP");
    assert_eq!(call_key_command(&[call("a", "ESTABLISHED"), call("b", "INCOMING")]), "ANSWER");
}

#[test]
fn the_panel_appears_with_a_button_past_the_sixth() {
    let mut buttons = CustomButton::empty_set();
    assert!(!panel_extended(&buttons));
    buttons[5].kind = "dial".into();
    assert!(!panel_extended(&buttons));
    buttons[6].kind = "open".into();
    assert!(panel_extended(&buttons));
    assert!(!panel_extended(&buttons[..6]));
}
