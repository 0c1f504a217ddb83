use ksip::message::split;
use ksip::settings::Settings;
use ksip::shortcuts::{parse, parse_settings};

fn refusal(text: &str) -> String {
    match parse(text) {
        Err(e) => e,
        Ok(_) => panic!("{text} was read"),
    }
}

#[test]
fn an_empty_shortcut_is_not_a_shortcut() {
    assert!(parse("").unwrap().is_none());
    assert!(parse("   ").unwrap().is_none());
}

#[test]
fn a_shortcut_is_written_with_plus_signs() {
    assert!(parse("SHIFT+F2").unwrap().is_some());
    assert!(parse("CONTROL+ALT+K").unwrap().is_some());
    assert!(parse("F3").unwrap().is_some());
}

#[test]
fn a_misspelled_shortcut_is_reported_with_what_was_typed() {
    let reported = refusal("SHIFT F2");
    let (code, args) = split(&reported);
    assert_eq!(code, "SHORTCUT_SYNTAX");
    assert_eq!(args, vec!["SHIFT F2".to_string()]);
}

#[test]
fn the_two_shortcuts_have_to_differ() {
    let mut settings = Settings::default();
    settings.shortcut_window = "SHIFT+F2".into();
    settings.shortcut_call = "shift+f2".into();
    assert!(parse_settings(&settings).is_err());
    settings.shortcut_call = "SHIFT+F3".into();
    let (window, call) = parse_settings(&settings).unwrap();
    let (window_id, call_id) = (window.unwrap().id(), call.unwrap().id());
    assert_ne!(window_id, call_id);
    // Each key comes back with its own id, in its own place.
    settings.shortcut_call = "SHIFT+F2".into();
    settings.shortcut_window = "SHIFT+F3".into();
    let (window, call) = parse_settings(&settings).unwrap();
    assert_eq!((window.unwrap().id(), call.unwrap().id()), (call_id, window_id));
    // Each key is the one its own text names, read again on its own.
    assert_eq!(window_id, parse("SHIFT+F2").ok().flatten().unwrap().id());
    assert_eq!(call_id, parse("  SHIFT+F3 ").ok().flatten().unwrap().id());
}

#[test]
fn a_shortcut_is_read_without_the_space_around_it() {
    let reported = refusal("  NOPE+KEY  ");
    assert_eq!(split(&reported).1, vec!["NOPE+KEY".to_string()]);
    let mut settings = Settings::default();
    settings.shortcut_window = String::new();
    settings.shortcut_call = String::new();
    assert!(parse_settings(&settings).is_ok(), "two unused keys do not fight");
    settings.shortcut_call = "F4".into();
    let (window, call) = parse_settings(&settings).unwrap();
    assert!(window.is_none() && call.is_some());
}
