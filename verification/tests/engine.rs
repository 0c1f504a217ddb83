use ksip::history::{automatic_answer_targets, explorer_path, recording_name, History, numbered_name, plain_recording};
use ksip::log_text::{without_colour, log_effects, app_line_of, one_line, protocol_line, PollingError, stamp_text, utc_offset, last_lines_start, whole_lines_of, file_stock};
use ksip::logs::{file_limit, LogLine, Logs, LOG_APP, LOG_LIMIT, LOG_UI};
use ksip::message::message;
use ksip::netstring::{read_netstring, write_netstring};
use ksip::phone_state::{CallHistory, CallInfo};
use ksip::settings::{dial_target, validate, CustomButton, Settings};

#[test]
fn explorer_receives_windows_folder_paths() {
    assert_eq!(explorer_path("C:\\AEC Lab\\data/recordings"), "C:\\AEC Lab\\data\\recordings");
    assert_eq!(explorer_path("\\\\?\\C:\\AEC Lab\\data/recordings"), "C:\\AEC Lab\\data\\recordings");
    assert_eq!(explorer_path("\\\\?\\UNC\\server\\share/recordings"), "\\\\server\\share\\recordings");
}

#[test]
fn netstrings_are_byte_counted_and_sequential() {
    let mut wire = Vec::new();
    write_netstring(&mut wire, "日本語".as_bytes()).unwrap();
    write_netstring(&mut wire, b"{}").unwrap();
    let (first, used) = read_netstring(&wire).unwrap();
    assert_eq!(first, "日本語".as_bytes());
    let (second, _) = read_netstring(&wire[used..]).unwrap();
    assert_eq!(second, b"{}");
}

#[test]
fn reject_malformed_frames() {
    for data in [b"9999999:x,".as_slice(), b"01:a,", b"2:{};", b"x:{}", b"2:{"] {
        assert!(read_netstring(data).is_err());
    }
}

#[test]
fn reject_config_injection_and_port_overlap() {
    let rejected = |s: Settings| validate(&s, &[]).is_err();
    assert!(rejected(Settings { microphone: "default\nmodule evil".into(), ..Settings::default() }));
    assert!(rejected(Settings { sip_port: 10000, rtp_port: 10000, ..Settings::default() }));
    assert!(rejected(Settings { aec_delay_ms: 501, ..Settings::default() }));
    assert!(rejected(Settings { ca_file: "C:\\ca.pem\nsip_verify_server no".into(), ..Settings::default() }));
    assert!(validate(&Settings::default(), &[]).is_ok());
}

#[test]
fn custom_buttons_are_checked_and_resolved() {
    let button = |kind: &str, number: &str, transfer: &str| CustomButton {
        title: "test".into(),
        kind: kind.into(),
        number: number.into(),
        transfer: transfer.into(),
        pickup: String::new(),
    };
    let with = |buttons: Vec<CustomButton>| Settings { buttons, ..Settings::default() };
    // The pickup falls back to the number, and is checked like one.
    let pickup = CustomButton { pickup: "*8701".into(), ..button("dial", "701", "") };
    assert_eq!(pickup.pickup_target(), Some("*8701"));
    assert_eq!(button("park", "701", "*701").pickup_target(), Some("701"));
    assert_eq!(button("transfer", "701", "").pickup_target(), None);
    assert!(validate(&with(vec![pickup]), &[]).is_ok());
    assert!(validate(&with(vec![CustomButton { pickup: "70 1".into(), ..button("dial", "701", "") }]), &[]).is_err());
    let ok = with(vec![button("park", "701", "*701"), button("dial", "1002", ""), button("transfer", "9001", "")]);
    assert!(validate(&ok, &[]).is_ok());
    assert_eq!(ok.watched_numbers(), vec!["701", "1002"]);
    assert_eq!(ok.buttons[0].transfer_target(), Some("*701"));
    assert_eq!(ok.buttons[1].transfer_target(), None);
    assert_eq!(ok.buttons[2].transfer_target(), Some("9001"));
    assert_eq!(button("park", "701", "").transfer_target(), Some("701"));
    // What is refused: a kind that is not one of the three, a title too
    // long, a number outside the SIP user alphabet, and two watchers of
    // one number. An unused button may leave its number empty.
    assert!(validate(&with(vec![button("hold", "701", "")]), &[]).is_err());
    assert!(validate(&with(vec![CustomButton { title: "x".repeat(41), ..button("dial", "1", "") }]), &[]).is_err());
    assert!(validate(&with(vec![button("dial", "70 1", "")]), &[]).is_err());
    assert!(validate(&with(vec![button("dial", "", "")]), &[]).is_err());
    assert!(validate(&with(vec![button("dial", "701", ""), button("park", "701", "")]), &[]).is_err());
    assert!(validate(&with(vec![button("", "", "")]), &[]).is_ok());
    // A full SIP URI is accepted for either address, with or without the
    // angle brackets a Refer-To header would carry, and handed on bare.
    let odd = with(vec![button("park", "61", "<sip:61@127.0.0.1>"), button("dial", " sip:sales@pbx.example ", "")]);
    assert!(validate(&odd, &[]).is_ok());
    assert_eq!(odd.buttons[0].transfer_target(), Some("sip:61@127.0.0.1"));
    assert_eq!(odd.buttons[0].dial_target(), Some("61"));
    assert_eq!(odd.watched_numbers(), vec!["61", "sip:sales@pbx.example"]);
    assert!(validate(&with(vec![button("transfer", "sip:61@pbx with space", "")]), &[]).is_err());
    // A link button holds a web address and nothing the engine would dial.
    let page = with(vec![button("open", " https://pbx.example/extensions ", "")]);
    assert!(validate(&page, &[]).is_ok());
    assert_eq!(page.buttons[0].link_target(), Some("https://pbx.example/extensions"));
    assert_eq!(page.buttons[0].dial_target(), None);
    assert_eq!(page.buttons[0].transfer_target(), None);
    assert!(validate(&with(vec![button("open", "ftp://pbx.example/", "")]), &[]).is_err());
    assert!(validate(&with(vec![button("open", "https://pbx.example/a b", "")]), &[]).is_err());
    assert!(validate(&with(vec![button("dial", "https://pbx.example/", "")]), &[]).is_err());
    // The tray delay is -1 (never) or up to an hour.
    assert!(validate(&Settings { tray_after_call: 0, ..Settings::default() }, &[]).is_ok());
    assert!(validate(&Settings { tray_after_call: -2, ..Settings::default() }, &[]).is_err());
    assert!(validate(&Settings { tray_after_call: 3601, ..Settings::default() }, &[]).is_err());
    assert!(validate(&with(vec![button("transfer", &format!("sip:{}@pbx", "6".repeat(200)), "")]), &[]).is_err());
    // The policy values round-trip through their registry names.
    let mut read_back = Settings::default();
    read_back.read_policy(&ok.policy_values());
    assert_eq!(read_back.buttons[..3], ok.buttons[..3]);
    assert!(read_back.buttons[3..].iter().all(|b| !b.configured()));
}

#[test]
fn a_number_is_reduced_to_what_the_registrar_dials() {
    assert_eq!(dial_target("9001"), Ok("9001".into()));
    assert_eq!(dial_target(" (06) 1234.5678 "), Ok("0612345678".into()));
    assert_eq!(dial_target("+81-6-1234-5678"), Ok("+81612345678".into()));
    assert_eq!(dial_target("*21#"), Ok("*21#".into()));
    assert_eq!(dial_target("<sip:1001@pbx.example>"), Ok("sip:1001@pbx.example".into()));
    assert_eq!(dial_target("SIPS:1001@pbx.example"), Ok("SIPS:1001@pbx.example".into()));
    for wrong in ["", "+", "answer", "90 0a", "１２３", "12+34", "1_2", "sip:10 01@pbx", "sip:１@pbx"] {
        assert_eq!(dial_target(wrong), Err(message("DIAL_TARGET_INVALID")), "{wrong}");
    }
    assert!(dial_target(&"1".repeat(31)).is_err());
    assert!(dial_target(&format!("sip:{}@pbx", "1".repeat(200))).is_err());
    // A button keeps its number as dialled, so what it watches is what it says.
    assert!(CustomButton::target_ok(""));
    assert!(CustomButton::target_ok("*701"));
    assert!(CustomButton::target_ok(" <sip:61@pbx.example> "));
    assert!(!CustomButton::target_ok("70-1"));
    assert!(!CustomButton::target_ok("voicemail"));
}

#[test]
fn a_dial_target_dials_itself() {
    for text in [" <+81 (6) 1234-5678> ", "*21#", "<sip:1001@pbx.example>", "SIPS:x@pbx"] {
        let target = dial_target(text).unwrap();
        assert_eq!(dial_target(&target), Ok(target.clone()));
        assert!(CustomButton::target_ok(&target));
    }
    // In two pairs of angle brackets the target keeps one pair.
    assert_eq!(dial_target("<<sip:1@pbx>>"), Ok("<sip:1@pbx>".into()));
    assert_eq!(dial_target("<sip:1@pbx>"), Ok("sip:1@pbx".into()));
}

#[test]
fn a_recording_is_named_after_its_start_and_the_peer() {
    assert_eq!(
        recording_name("2026-09-23T14:30:12+09:00", "sip:1002@pbx.example:5060;transport=udp"),
        "2026-09-23_14-30-12_1002.wav"
    );
    assert_eq!(
        recording_name("2026-09-23T14:30:12+09:00", "<sips:+81-6-1234@pbx.example>"),
        "2026-09-23_14-30-12_+81-6-1234.wav"
    );
    assert_eq!(recording_name("2026-09-23T14:30:12+09:00", "sip:a b*c@pbx"), "2026-09-23_14-30-12_abc.wav");
    assert_eq!(recording_name("2026-09-23T14:30:12+09:00", ""), "2026-09-23_14-30-12_call.wav");
}

#[test]
fn the_engine_colours_are_left_out_of_the_log() {
    assert_eq!(
        without_colour("\x1b[m\x1b[31mctrl_tcp: error processing command\x1b[;m"),
        "ctrl_tcp: error processing command"
    );
    assert_eq!(without_colour("plain [text]"), "plain [text]");
}

fn info(id: &str, state: &str, held: bool, line: u8) -> CallInfo {
    CallInfo {
        id: id.into(),
        peer: format!("sip:{id}@local"),
        name: String::new(),
        state: state.into(),
        held,
        duration: 0,
        codec: String::new(),
        secure: false,
        transport: "UDP".into(),
        line,
    }
}

#[test]
fn automatic_answer_selects_each_incoming_call_once() {
    let calls = vec![info("incoming", "INCOMING", false, 1), info("talking", "ESTABLISHED", false, 2)];
    let mut answered: Vec<String> = Vec::new();
    assert!(automatic_answer_targets(false, &calls, &answered).is_empty());
    let targets = automatic_answer_targets(true, &calls, &answered);
    assert_eq!(targets, vec!["incoming".to_string()]);
    answered.extend(targets);
    assert!(automatic_answer_targets(true, &calls, &answered).is_empty());
}

#[test]
fn logs_move_by_sequence_and_reset_when_lines_are_dropped() {
    let stamp = stamp_text(2026, 9, 21, 9, 12, 54, utc_offset(0, -540, 0, 0));
    let mut logs = Logs::new(0, 0);
    logs.push(LogLine::new(stamp.clone(), LOG_APP, "one".into()));
    logs.push(LogLine::new(stamp.clone(), LOG_APP, "two".into()));
    let page = logs.page(0);
    assert_eq!(page.from, 0);
    assert_eq!(page.entries.len(), 2);
    assert_eq!(page.entries[0].src, LOG_APP);
    assert_eq!(page.entries[0].text, "one");
    // In the form 2026-09-21T09:12:54+09:00.
    let stamp = &page.entries[0].time;
    let (date, rest) = stamp.split_once('T').expect("date and time");
    assert!(date.split('-').all(|p| p.parse::<u32>().is_ok()));
    let (time, offset) = rest.split_at(8);
    assert_eq!(time.split(':').count(), 3);
    assert!(offset.starts_with(['+', '-']) && offset.len() == 6 && offset[1..].contains(':'), "offset was {offset}");
    let page = logs.page(1);
    assert_eq!(page.from, 1);
    assert_eq!(page.entries[0].text, "two");
    assert!(logs.page(2).entries.is_empty());
    for i in 0..LOG_LIMIT {
        logs.push(LogLine::new("t".into(), LOG_APP, format!("line {i}")));
    }
    let page = logs.page(1);
    assert_eq!(page.entries.len(), LOG_LIMIT);
    assert!(page.from > 1, "the window is told which lines it lost");
    assert_eq!(logs.sequence(), LOG_LIMIT as u64 + 2);
}

#[test]
fn ui_and_panic_lines_are_labelled_and_kept_readable() {
    let mut logs = Logs::new(0, 0);
    let ui = app_line_of("failed\u{7}\nwith a control char").unwrap();
    logs.push(LogLine::new("t".into(), LOG_UI, ui));
    logs.push(LogLine::new("t".into(), LOG_APP, one_line("panic at 'boom'\nsecond line")));
    let entries = logs.page(0).entries;
    assert_eq!(entries[0].src, LOG_UI);
    assert_eq!(entries[0].text, "failedwith a control char");
    // A panic stays on one line so its time is next to it.
    assert_eq!(entries[1].src, LOG_APP);
    assert_eq!(entries[1].text, "panic at 'boom' second line");
    // Blank input is not worth a line of its own.
    assert!(app_line_of("   ").is_none());
    assert_eq!(logs.page(0).entries.len(), 2);
}

#[test]
fn polling_errors_clear_themselves_but_leave_other_errors() {
    let mut polling = PollingError::new();
    assert!(polling.report("TEMPORARY"), "a new error is logged");
    let mut shown = "TEMPORARY".to_string();
    if polling.clear(&shown) {
        shown.clear();
    }
    assert_eq!(shown, "");
    polling.report("TEMPORARY");
    let shown = "AUDIO_DEVICE_INIT_FAILED".to_string();
    assert!(!polling.clear(&shown));
    assert_eq!(shown, "AUDIO_DEVICE_INIT_FAILED");
}

#[test]
fn microphone_fallback_log_updates_visible_state() {
    assert_eq!(log_effects("ksip: microphone fallback active").microphone_fallback, Some(true));
    assert_eq!(log_effects("ksip: microphone input recovered").microphone_fallback, Some(false));
    assert_eq!(log_effects("anything else").microphone_fallback, None);
}

fn row(n: u64) -> CallHistory {
    CallHistory {
        ended_at: n,
        direction: "OUTGOING".into(),
        peer: format!("sip:{n}@pbx"),
        name: String::new(),
        duration: 1,
        recording: String::new(),
        outcome: String::new(),
    }
}

#[test]
fn the_call_history_is_read_back_newest_first() {
    let mut history = History::from_file(vec![], 0);
    assert!(history.rows().is_empty());
    history.add(vec![row(1)]);
    history.add(vec![row(2)]);
    history.add(vec![row(3), row(4)]);
    let ended: Vec<u64> = history.rows().iter().map(|r| r.ended_at).collect();
    assert_eq!(ended, [3, 4, 2, 1]);
    assert_eq!(history.file_lines(), 4);
    // The file holds them oldest first; read back, they show the same way.
    let again = History::from_file(vec![row(1), row(2), row(4), row(3)], 4);
    assert_eq!(again.rows().iter().map(|r| r.ended_at).collect::<Vec<_>>(), [3, 4, 2, 1]);
    // Past twice the limit the file is to keep its last lines.
    let mut shorten = false;
    for n in 0..2000u64 {
        shorten = history.add(vec![row(100 + n)]);
    }
    assert!(shorten);
    assert_eq!(history.rows().len(), 1000);
    assert_eq!(history.rows()[0].ended_at, 2099);
    history.kept(1000);
    assert_eq!(history.file_lines(), 1000);
    history.clear();
    assert!(history.rows().is_empty());
    assert_eq!(history.file_lines(), 0);
}

#[test]
fn the_log_file_keeps_its_last_lines() {
    let bytes = b"a\nb\nc\nd\n";
    assert_eq!(last_lines_start(bytes, 2), (4, 2));
    assert_eq!(last_lines_start(bytes, 10), (0, 4));
    assert_eq!(file_stock(bytes), (4, 8));
    let (lines, end) = whole_lines_of(b"{\"a\":1}\n\n{\"b\":2}\n{\"c\"");
    assert_eq!(lines, vec![b"{\"a\":1}".to_vec(), b"{\"b\":2}".to_vec()]);
    assert_eq!(end, 17, "the line still being written waits");
    // Lines from another process go in front of the ones not yet written.
    let mut logs = Logs::new(0, 0);
    logs.push(LogLine::new("t1".into(), LOG_APP, "one".into()));
    logs.push(LogLine::new("t2".into(), LOG_APP, "two".into()));
    assert!(!logs.written(30, true, false));
    assert_eq!((logs.offset(), logs.file_lines(), logs.unwritten()), (30, 2, 0));
    logs.push(LogLine::new("t3".into(), LOG_APP, "three".into()));
    assert!(logs.seen(40));
    logs.take_foreign(vec![Some(LogLine::new("t".into(), LOG_APP, "from the link handler".into())), None], 10);
    let texts: Vec<String> = logs.entries().iter().map(|l| l.text.clone()).collect();
    assert_eq!(texts, ["one", "two", "from the link handler", "three"]);
    assert_eq!(logs.sequence(), 4);
    assert_eq!((logs.offset(), logs.file_lines(), logs.unwritten()), (40, 4, 1));
    logs.clear();
    assert_eq!((logs.sequence(), logs.file_lines(), logs.offset()), (0, 0, 0));
}

#[test]
fn a_line_of_the_log_keeps_a_message_apart_from_prose() {
    let line = LogLine::new("t".into(), LOG_APP, ksip::message::message_with("ENGINE_EXITED", &["3"]));
    assert_eq!(line.code, "ENGINE_EXITED");
    assert_eq!(line.args, vec!["3".to_string()]);
    assert_eq!(line.text, "");
    let prose = LogLine::new("t".into(), LOG_APP, "ua: registered".into());
    assert_eq!(prose.code, "");
    assert_eq!(prose.text, "ua: registered");
    assert_eq!(protocol_line("ksip:\u{7}123"), "protocol ksip:123");
}

#[test]
fn a_log_line_of_the_engine_can_change_the_banner() {
    let e = log_effects("ksip_audio: open failed");
    assert_eq!(e.aec_active, Some(false));
    assert_eq!(e.error.unwrap(), "{\"args\":[\"ksip_audio: open failed\"],\"code\":\"AUDIO_DEVICE_INIT_FAILED_DETAIL\"}");
    assert!(log_effects("ksip_audio: open failed, using silence").error.is_none());
    assert_eq!(log_effects("tls_add_ca() failed").error.unwrap(), "TRUST_STORE_UNUSABLE");
    assert_eq!(log_effects("postlab: receive WAV closed, 3 dropped samples").error.unwrap(), "RECORDING_WRITE_PROBLEM");
    assert!(log_effects("postlab: receive WAV closed, 0 dropped samples, error=0").error.is_none());
    assert_eq!(log_effects("Google WebRTC ADM + APM initialized (processing enabled)").aec_active, Some(true));
}

#[test]
fn the_time_of_a_line_carries_its_offset() {
    assert_eq!(stamp_text(2026, 9, 21, 9, 12, 54, 540), "2026-09-21T09:12:54+09:00");
    assert_eq!(stamp_text(26, 1, 2, 3, 4, 5, -330), "0026-01-02T03:04:05-05:30");
    assert_eq!(utc_offset(0xFFFF_FFFF, -540, 0, 0), 0);
    assert_eq!(utc_offset(2, 60, 0, -60), 0);
    assert_eq!(utc_offset(1, -540, 0, -60), 540);
}

#[test]
fn recordings_are_found_only_in_their_folder() {
    assert!(plain_recording("2026-09-23_14-30-12_1002.wav"));
    assert!(!plain_recording("../secret.wav"));
    assert!(!plain_recording("C:rec.wav"));
    assert!(!plain_recording(".hidden.wav"));
    assert!(!plain_recording("rec.mp3"));
    assert!(!plain_recording(""));
    assert_eq!(numbered_name("2026_1002.wav", 2), "2026_1002-2.wav");
}

#[test]
fn detailed_logging_keeps_a_longer_file() {
    assert_eq!(file_limit(false), 1000);
    assert_eq!(file_limit(true), 10000);
    let mut plain = Logs::new(2000, 0);
    plain.push(LogLine::new("t".into(), LOG_APP, "one more".into()));
    assert!(plain.written(10, true, false), "2001 lines are cut to 1000");
    let mut detailed = Logs::new(2000, 0);
    detailed.push(LogLine::new("t".into(), LOG_APP, "one more".into()));
    assert!(!detailed.written(10, true, true), "2001 lines stay while detail logging is on");
    let mut full = Logs::new(20000, 0);
    full.push(LogLine::new("t".into(), LOG_APP, "one more".into()));
    assert!(full.written(10, true, true), "past 20000 lines the file is cut to 10000");
}

#[test]
fn a_cleared_log_counts_every_line_again() {
    let mut logs = Logs::new(0, 0);
    logs.push(LogLine::new("t".into(), LOG_APP, "before".into()));
    logs.clear();
    for i in 0..(LOG_LIMIT + 2) {
        logs.push(LogLine::new("t".into(), LOG_APP, format!("line {i}")));
    }
    assert_eq!(logs.sequence(), LOG_LIMIT as u64 + 2);
    assert_eq!(logs.entries().len(), LOG_LIMIT);
    assert_eq!(logs.entries()[0].text, "line 2");
}
