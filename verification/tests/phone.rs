use ksip::message::message;
use ksip::phone_state::{automatic_recording_target, call_outcome, CallInfo, PhoneState};

fn call(id: &str, state: &str, peer: &str) -> CallInfo {
    CallInfo {
        id: id.into(),
        peer: peer.into(),
        name: String::new(),
        state: state.into(),
        held: false,
        duration: 0,
        codec: String::new(),
        secure: false,
        transport: "UDP".into(),
        line: 0,
    }
}

#[test]
fn a_call_that_rings_and_ends_between_reports_still_makes_its_row_once() {
    let mut phone = PhoneState::default();
    let g = phone.new_engine();
    // Announced and closed with no report in between: a missed call.
    phone.note_announced("i1", "HISTORY_INCOMING", "sip:1003@pbx.example");
    phone.note_closed("i1", "connection reset [108],SIP;cause=487");
    // Announced and closed by our own 486: refused under do not disturb.
    phone.note_announced("i2", "HISTORY_INCOMING", "sip:1004@pbx.example");
    phone.note_closed("i2", "Busy Here");
    // An outgoing call answered with an error at once.
    phone.note_announced("o1", "HISTORY_OUTGOING", "sip:1002@pbx.example");
    phone.note_closed("o1", "486 Busy Here");
    let applied = phone.apply_report(g, vec![], false, false, 10).expect("current generation");
    let outcomes: Vec<(String, String)> =
        applied.ended.iter().map(|r| (r.peer.clone(), r.outcome.clone())).collect();
    assert_eq!(
        outcomes,
        vec![
            ("sip:1003@pbx.example".into(), message("HISTORY_MISSED")),
            ("sip:1004@pbx.example".into(), message("HISTORY_REFUSED")),
            ("sip:1002@pbx.example".into(), message("HISTORY_BUSY")),
        ]
    );
    assert!(applied.ended.iter().all(|r| r.ended_at == 10));
    // Nothing is left behind, and the next report makes no second row.
    assert!(phone.remembers_nothing());
    assert!(phone.apply_report(g, vec![], false, false, 11).unwrap().ended.is_empty());
}

#[test]
fn a_call_seen_in_a_report_makes_its_row_when_it_goes_and_keeps_its_line() {
    let mut phone = PhoneState::default();
    let g = phone.new_engine();
    phone.note_announced("o1", "HISTORY_OUTGOING", "sip:1002@pbx.example");
    phone.note_dialled("o1", 2);
    phone.note_recording("o1", "2026-09-26_23-00-00_1002.wav");
    let a = phone
        .apply_report(g, vec![call("o1", "ESTABLISHED", "sip:1002@pbx.example")], false, false, 20)
        .unwrap();
    assert_eq!(a.calls[0].line, 2, "the line chosen for the dial");
    assert!(a.ended.is_empty());
    // A second call takes the lowest free line, which is 1.
    let a = phone
        .apply_report(
            g,
            vec![call("o1", "ESTABLISHED", "sip:1002@pbx.example"), call("i9", "INCOMING", "sip:1005@pbx.example")],
            false,
            false,
            21,
        )
        .unwrap();
    assert_eq!(a.calls.iter().map(|c| c.line).collect::<Vec<_>>(), vec![2, 1]);
    // The first ends normally, the incoming one is answered elsewhere.
    phone.note_closed("i9", "connection reset [108],SIP;cause=200;text=\"Call completed elsewhere\"");
    let a = phone.apply_report(g, vec![], false, false, 30).unwrap();
    let rows: Vec<(String, String, String)> =
        a.ended.iter().map(|r| (r.peer.clone(), r.outcome.clone(), r.recording.clone())).collect();
    assert_eq!(
        rows,
        vec![
            ("sip:1002@pbx.example".into(), String::new(), "2026-09-26_23-00-00_1002.wav".into()),
            ("sip:1005@pbx.example".into(), message("HISTORY_ELSEWHERE"), String::new()),
        ]
    );
    assert!(phone.remembers_nothing(), "nothing lingers once the calls have gone");
}

#[test]
fn a_report_from_an_earlier_engine_changes_nothing() {
    let mut phone = PhoneState::default();
    let old = phone.new_engine();
    phone.apply_report(old, vec![call("c1", "ESTABLISHED", "sip:1002@pbx.example")], false, false, 1).unwrap();
    let new = phone.new_engine();
    assert!(phone.calls().is_empty(), "a new engine starts with no calls");
    assert!(phone
        .apply_report(old, vec![call("c1", "ESTABLISHED", "sip:1002@pbx.example")], false, false, 2)
        .is_none());
    assert!(phone.calls().is_empty());
    assert!(phone.apply_report(new, vec![], false, false, 3).is_some());
}

#[test]
fn the_automatic_answer_takes_each_incoming_call_once() {
    let mut phone = PhoneState::default();
    let g = phone.new_engine();
    let ringing = vec![call("i1", "INCOMING", "a"), call("i2", "INCOMING", "b")];
    assert!(
        phone.apply_report(g, ringing.clone(), false, false, 1).unwrap().answer.is_empty(),
        "off: nobody is answered"
    );
    assert_eq!(phone.apply_report(g, ringing.clone(), false, true, 2).unwrap().answer, vec!["i1", "i2"]);
    assert!(
        phone.apply_report(g, ringing, false, true, 3).unwrap().answer.is_empty(),
        "claimed calls are not answered twice"
    );
}

#[test]
fn an_engine_that_dies_leaves_rows_for_the_calls_that_were_up() {
    let mut phone = PhoneState::default();
    let g = phone.new_engine();
    phone.note_dialled("o1", 1);
    phone.note_recording("o1", "rec.wav");
    phone
        .apply_report(
            g,
            vec![call("o1", "ESTABLISHED", "sip:1002@pbx.example"), call("i1", "INCOMING", "sip:1003@pbx.example")],
            false,
            false,
            5,
        )
        .unwrap();
    let rows = phone.engine_gone(false, 9);
    assert_eq!(rows.len(), 2);
    assert_eq!((rows[0].recording.as_str(), rows[0].outcome.as_str()), ("rec.wav", ""));
    assert_eq!(rows[1].outcome, message("HISTORY_MISSED"));
    assert!(phone.calls().is_empty() && phone.remembers_nothing());
}

#[test]
fn maintenance_begins_only_while_no_call_is_up() {
    let mut phone = PhoneState::default();
    let g = phone.new_engine();
    assert!(phone.begin_maintenance().is_ok());
    assert!(phone.in_maintenance());
    phone.end_maintenance();
    phone.apply_report(g, vec![call("c1", "ESTABLISHED", "sip:1002@pbx.example")], false, false, 1).unwrap();
    assert!(phone.begin_maintenance().is_err());
    assert!(!phone.in_maintenance());
}

#[test]
fn how_a_call_ended_is_named() {
    assert_eq!(call_outcome("ESTABLISHED", false, "Connection reset", false), "");
    assert_eq!(call_outcome("INCOMING", true, "Busy Here", false), message("HISTORY_REFUSED"));
    assert_eq!(call_outcome("OUTGOING", false, "486 Busy Here", false), message("HISTORY_BUSY"));
    assert_eq!(call_outcome("RINGING", false, "404 Not Found", false), message("HISTORY_NOT_FOUND"));
    assert_eq!(call_outcome("OUTGOING", false, "604 Does Not Exist Anywhere", false), message("HISTORY_NOT_FOUND"));
    assert_eq!(call_outcome("OUTGOING", false, "480 Temporarily Unavailable", false), message("HISTORY_UNAVAILABLE"));
    assert_eq!(call_outcome("OUTGOING", false, "603 Decline", false), message("HISTORY_DECLINED"));
    assert_eq!(call_outcome("OUTGOING", false, "408 Request Timeout", false), message("HISTORY_NO_ANSWER"));
    assert_eq!(call_outcome("RINGING", false, "Rejected by user", false), message("HISTORY_CANCELLED"));
    assert_eq!(call_outcome("OUTGOING", false, "500 Server Internal Error", false), message("HISTORY_FAILED"));
    assert_eq!(call_outcome("INCOMING", true, "", false), message("HISTORY_MISSED"));
    assert_eq!(call_outcome("INCOMING", true, "", true), message("HISTORY_REFUSED"));
    assert_eq!(
        call_outcome("INCOMING", true, "connection reset [108],SIP;cause=200;text=\"Call completed elsewhere\"", false),
        message("HISTORY_ELSEWHERE")
    );
    assert_eq!(
        call_outcome("INCOMING", true, "connection reset [108],Q.850;cause=26", false),
        message("HISTORY_ELSEWHERE")
    );
    assert_eq!(
        call_outcome("INCOMING", true, "connection reset [108],SIP;cause=487;text=\"ORIGINATOR_CANCEL\"", false),
        message("HISTORY_MISSED")
    );
}

#[test]
fn the_recording_follows_the_established_call_on_the_lowest_line() {
    let mut calls = vec![call("a", "ESTABLISHED", "x"), call("b", "ESTABLISHED", "y")];
    calls[0].line = 2;
    calls[1].line = 1;
    assert_eq!(automatic_recording_target(true, &calls).as_deref(), Some("b"));
    calls[1].held = true;
    assert_eq!(automatic_recording_target(true, &calls).as_deref(), Some("a"));
    assert!(automatic_recording_target(false, &calls).is_none());
    assert!(automatic_recording_target(true, &[call("c", "INCOMING", "z")]).is_none());
}

#[test]
fn settings_migrate_and_auto_record_selects_active_line() {
    // What a stored document leaves out comes from the defaults.
    let settings = ksip::settings::Settings::default();
    assert_eq!(settings.microphone_gain, 100);
    assert_eq!(settings.speaker_gain, 100);
    assert_eq!(settings.aec_delay_ms, 20);
    assert_eq!(settings.register_interval, 300);
    assert_eq!(settings.tray_after_call, -1);
    assert!(!settings.detail_log);
    assert!(!settings.auto_record);
    assert!(!settings.auto_answer);
    assert!(settings.buttons.iter().all(|b| !b.configured()));
    let calls = vec![
        CallInfo {
            id: "held".into(),
            peer: "sip:1@local".into(),
            name: String::new(),
            state: "ESTABLISHED".into(),
            held: true,
            duration: 1,
            codec: String::new(),
            secure: false,
            transport: "UDP".into(),
            line: 1,
        },
        CallInfo {
            id: "active".into(),
            peer: "sip:2@local".into(),
            name: String::new(),
            state: "ESTABLISHED".into(),
            held: false,
            duration: 1,
            codec: String::new(),
            secure: false,
            transport: "UDP".into(),
            line: 2,
        },
    ];
    assert_eq!(automatic_recording_target(true, &calls).as_deref(), Some("active"));
    assert!(automatic_recording_target(false, &calls).is_none());
}

#[test]
fn over_many_reports_a_call_is_answered_once() {
    let mut phone = PhoneState::new();
    let g = phone.new_engine();
    let ringing = || vec![call("i1", "INCOMING", "sip:1003@pbx.example"), call("i2", "INCOMING", "sip:1004@pbx.example")];
    assert!(phone.apply_report(g, ringing(), false, false, 1).unwrap().answer.is_empty());
    assert_eq!(phone.apply_report(g, ringing(), false, true, 2).unwrap().answer, ["i1", "i2"]);
    for now in 3..8 {
        assert!(phone.apply_report(g, ringing(), false, true, now).unwrap().answer.is_empty(), "report {now}");
    }
    let a = phone.apply_report(g, vec![call("i2", "INCOMING", "sip:1004@pbx.example")], false, true, 9).unwrap();
    assert!(a.answer.is_empty());
    assert_eq!(a.ended.len(), 1);
    assert_eq!(a.ended[0].ended_at, 9);
    assert_eq!(a.ended[0].peer, "sip:1003@pbx.example");
}

#[test]
fn a_report_puts_dialled_kept_and_new_calls_on_their_lines() {
    let mut phone = PhoneState::new();
    let g = phone.new_engine();
    phone.note_dialled("o1", 3);
    let a = phone.apply_report(g, vec![call("o1", "ESTABLISHED", "sip:1002@pbx.example")], false, false, 1).unwrap();
    assert_eq!(a.calls[0].line, 3);
    let a = phone
        .apply_report(g, vec![call("i1", "INCOMING", "sip:1003@pbx.example"), call("o1", "ESTABLISHED", "sip:1002@pbx.example")], false, false, 2)
        .unwrap();
    assert_eq!((a.calls[0].line, a.calls[1].line), (1, 3));
    assert_eq!((a.calls[0].id.as_str(), a.calls[0].peer.as_str()), ("i1", "sip:1003@pbx.example"));
    let a = phone.apply_report(g, vec![call("i1", "ESTABLISHED", "sip:1003@pbx.example")], false, false, 3).unwrap();
    assert_eq!(a.calls[0].line, 1);
    assert_eq!(a.ended.len(), 1);
    assert_eq!((a.ended[0].peer.as_str(), a.ended[0].ended_at), ("sip:1002@pbx.example", 3));
}

#[test]
fn a_new_call_skips_the_lines_later_calls_already_hold() {
    let mut phone = PhoneState::new();
    let g = phone.new_engine();
    phone.note_dialled("o2", 1);
    let a = phone
        .apply_report(g, vec![call("i5", "INCOMING", "sip:1005@pbx.example"), call("o2", "ESTABLISHED", "sip:1002@pbx.example")], false, false, 1)
        .unwrap();
    assert_eq!((a.calls[0].line, a.calls[1].line), (2, 1));
}
