use ksip::actions::{check_action, link_known, ActionPlan};
use ksip::config::{check_control_port, engine_config, trust_file, uses_windows_trust};
use ksip::engine::{event_effects, event_line, microphone_choice, network_step, parking_list, password_for, recording_step, NetworkStep, RecordingStep};
use ksip::licenses::{notices_from, text};
use ksip::native::{adapter_address, adapter_of, usable_address, Adapter};
use ksip::phone_state::CallInfo;
use ksip::protocol::{command_from, is_link, parse, pipe_name, Link};
use ksip::settings::{binding, dial_target, media_check, validate, CustomButton, Settings};
use ksip::storage::{profile_name, Account, Store};

fn button(kind: &str, number: &str, transfer: &str) -> CustomButton {
    CustomButton { title: "b".into(), kind: kind.into(), number: number.into(), transfer: transfer.into(), pickup: String::new() }
}

fn call(id: &str, state: &str, held: bool, line: u8) -> CallInfo {
    CallInfo {
        id: id.into(),
        peer: String::new(),
        name: String::new(),
        state: state.into(),
        held,
        duration: 0,
        codec: String::new(),
        secure: false,
        transport: "UDP".into(),
        line,
    }
}

#[test]
fn every_policy_value_reads_back() {
    let mut s = Settings::default();
    s.transport = "tls".into();
    s.ca_file = "C:\\ca.pem".into();
    s.media_encryption = "sdes".into();
    s.codecs = "PCMU, opus".into();
    s.browser_integration = true;
    s.buttons = vec![button(" DIAL ", "701", "")];
    let values = s.policy_values();
    assert_eq!(values.len(), 5 + 5);
    assert_eq!(values[3], ("codecs".to_string(), "PCMU, opus".to_string()));
    assert_eq!(values[5], ("button_1_title".to_string(), "b".to_string()));
    let mut read = Settings::default();
    read.read_policy(&values);
    assert_eq!(read.transport, "tls");
    assert_eq!(read.ca_file, "C:\\ca.pem");
    assert_eq!(read.media_encryption, "sdes");
    assert_eq!(read.codecs, "PCMU, opus");
    assert!(read.browser_integration);
    assert_eq!(read.buttons.len(), 30);
    assert_eq!(read.buttons[0].kind, "dial", "the kind is read the way the rules read it");
    assert!(read.buttons[1..].iter().all(|b| *b == CustomButton::default()));
    assert_eq!(Settings::policy_names().len(), 5 + 5 * 30);
    // A policy may say yes in several ways.
    let mut yes = Settings::default();
    yes.read_policy(&[("browser_integration".to_string(), " On ".to_string())]);
    assert!(yes.browser_integration);
}

#[test]
fn the_settings_name_the_engine_its_transport_and_encryption() {
    let mut s = Settings::default();
    assert_eq!(s.sip_transport(), "UDP");
    s.transport = "TlS".into();
    assert_eq!(s.sip_transport(), "TLS");
    assert_eq!(s.mediaenc(), None);
    s.media_encryption = "dtls".into();
    assert_eq!(s.mediaenc(), Some("dtls_srtp"));
    s.media_encryption = "sdes".into();
    assert_eq!(s.mediaenc(), Some("srtp-mand"));
    assert!(media_check(&s).is_ok());
    s.media_encryption = "osrtp".into();
    assert_eq!(s.mediaenc(), Some("srtp"));
    assert!(media_check(&s).is_ok());
    s.transport = String::new();
    assert_eq!(media_check(&s).unwrap_err(), "SETTINGS_SDES_NEEDS_TLS");
    s.transport = "udp".into();
    assert_eq!(validate(&s, &[]).unwrap_err(), "SETTINGS_SDES_NEEDS_TLS");
    s.media_encryption = "sdes".into();
    assert_eq!(validate(&s, &[]).unwrap_err(), "SETTINGS_SDES_NEEDS_TLS");
    s.media_encryption = "zrtp".into();
    assert_eq!(validate(&s, &[]).unwrap_err(), "SETTINGS_MEDIA_ENCRYPTION_INVALID");
    s.media_encryption = String::new();
    assert!(validate(&s, &[]).is_ok());
    s.transport = "TCP".into();
    assert_eq!(s.sip_transport(), "TCP");
    assert!(validate(&s, &[]).is_ok());
    s.transport = "sctp".into();
    assert_eq!(validate(&s, &[]).unwrap_err(), "SETTINGS_TRANSPORT_INVALID");
    s.transport = String::new();
    s.sound_busy = "busy.wav".into();
    assert_eq!(s.sounds()[3], "busy.wav");
    assert_eq!(Settings::sound_keys()[3], "busy");
}

#[test]
fn the_chosen_adapter_decides_the_binding() {
    let adapters = vec![
        Adapter { name: "{A}".into(), label: "Ethernet".into(), address: "192.168.1.20".into(), up: true },
        Adapter { name: "{B}".into(), label: "Wi-Fi".into(), address: String::new(), up: false },
    ];
    assert_eq!(adapter_address(&adapters, "{a}"), Ok("192.168.1.20".to_string()));
    assert_eq!(adapter_address(&adapters, "{B}"), Err("ADAPTER_NO_ADDRESS".to_string()));
    assert_eq!(adapter_address(&adapters, "{C}"), Err("ADAPTER_NOT_FOUND".to_string()));
    let mut s = Settings::default();
    assert_eq!(binding(&s, &adapters), Ok(("0.0.0.0".to_string(), String::new())));
    s.network_adapter = " {A} ".into();
    assert_eq!(binding(&s, &adapters), Ok(("192.168.1.20".to_string(), "{A}".to_string())));
    assert!(validate(&s, &adapters).is_ok());
    s.network_adapter = "{C}".into();
    assert_eq!(validate(&s, &adapters).unwrap_err(), "ADAPTER_NOT_FOUND");
    assert_eq!(usable_address(&[[169, 254, 1, 1], [10, 0, 0, 7]]), "10.0.0.7");
    assert_eq!(usable_address(&[[169, 254, 1, 1]]), "");
    assert!(adapter_of(24, "{L}".into(), "Loopback".into(), &[[127, 0, 0, 1]], 1).is_none());
    assert!(adapter_of(6, String::new(), "x".into(), &[], 1).is_none());
    let a = adapter_of(6, "{E}".into(), "Ethernet".into(), &[[10, 1, 2, 3]], 2).unwrap();
    assert_eq!((a.address.as_str(), a.up), ("10.1.2.3", false));
}

#[test]
fn the_engine_config_has_a_line_per_setting() {
    let account = Account { server: "pbx.example".into(), port: 5060, extension: "1001".into(), auth_user: "1001".into(), password: "x".into() };
    let mut s = Settings::default();
    let config = engine_config(&account, &s, "0.0.0.0", "", "{spk}", "{mic}", 40000, "", Some("C:\\sounds"));
    let lines: Vec<&str> = config.lines().collect();
    assert_eq!(lines[0], "ksip_sip_server pbx.example");
    assert_eq!(lines[3], "sip_listen 0.0.0.0:5060");
    assert!(lines.contains(&"rtp_ports 10000-10020"));
    assert!(lines.contains(&"ctrl_tcp_listen 127.0.0.1:40000"));
    assert!(lines.contains(&"audio_player ksip_audio,{spk}"));
    assert!(lines.contains(&"ksip_mediaenc "));
    assert!(lines.contains(&"ksip_audio_codecs opus,G722,PCMU,PCMA"));
    assert_eq!(lines.last(), Some(&"audio_path C:/sounds"));
    assert!(!config.contains("sip_cafile"));
    assert!(!config.contains("net_interface"));
    assert!(config.ends_with('\n'));
    s.transport = "tls".into();
    assert!(uses_windows_trust(&s));
    let trust = trust_file(&s, "C:\\profile\\windows-trust.pem");
    assert_eq!(trust, "C:/profile/windows-trust.pem");
    let config = engine_config(&account, &s, "10.0.0.1", "{A}", "s", "m", 40000, &trust, None);
    assert!(config.contains("sip_cafile C:/profile/windows-trust.pem\nsip_verify_server yes\n"));
    assert!(config.contains("net_interface {A}\n"));
    assert!(config.contains("module dtls_srtp.dll\n"));
    assert_eq!(check_control_port(10005, &s).unwrap_err(), "ENGINE_CONTROL_PORT_TAKEN");
    assert!(check_control_port(40000, &s).is_ok());
}

#[test]
fn a_valid_setting_stays_on_its_line() {
    let account = Account { server: "pbx.example".into(), port: 5060, extension: "1001".into(), auth_user: "1001".into(), password: "x".into() };
    let mut s = Settings::default();
    s.ca_file = "C:\\ca.pem".into();
    assert!(validate(&s, &[]).is_ok());
    let config = engine_config(&account, &s, "0.0.0.0", "", "spk", "mic", 40000, "C:/ca.pem", None);
    let pieces: Vec<&str> = config.split('\n').collect();
    assert_eq!(pieces.last(), Some(&""));
    assert_eq!(pieces.len(), config.matches('\n').count() + 1);
    assert_eq!(pieces.iter().filter(|p| p.starts_with("ksip_sip_server ")).count(), 1);
    // A value with a line break in it never passes the rules.
    s.ca_file = "C:\\ca.pem\nsip_verify_server no".into();
    assert_eq!(validate(&s, &[]), Err("SETTINGS_CA_FILE_INVALID".into()));
    s.ca_file = String::new();
    s.microphone = "mic\nmodule evil.dll".into();
    assert_eq!(validate(&s, &[]), Err("SETTINGS_AUDIO_DEVICE_INVALID".into()));
    s.microphone = String::new();
    s.sound_ring = "a\rb.wav".into();
    assert_eq!(validate(&s, &[]), Err("SETTINGS_SOUND_PATH_INVALID".into()));
}

#[test]
fn an_action_is_checked_before_the_engine_hears_of_it() {
    let calls = vec![call("c1", "ESTABLISHED", false, 1), call("c2", "ESTABLISHED", true, 2)];
    let buttons = vec![button("park", "701", "*701"), button("open", " https://pbx.example/ ", "")];
    assert_eq!(check_action("fly", "", "", 1, &calls, &buttons).err().unwrap(), "ACTION_UNSUPPORTED");
    assert_eq!(check_action("dial", "", "1", 3, &calls, &buttons).err().unwrap(), "ACTION_ARGUMENT_INVALID");
    assert_eq!(check_action("dtmf", "c1", "1\n", 1, &calls, &buttons).err().unwrap(), "ACTION_ARGUMENT_INVALID");
    assert!(matches!(check_action("auto_record", "", "on", 1, &calls, &buttons), Ok(ActionPlan::AutoRecord(true))));
    assert_eq!(check_action("auto_record", "", "maybe", 1, &calls, &buttons).err().unwrap(), "AUTO_RECORD_ARGUMENT_INVALID");
    assert_eq!(check_action("dial", "", "1002", 1, &calls, &buttons).err().unwrap(), "CALL_LINE_BUSY");
    assert!(check_action("transfer", "c1", "c2", 1, &calls, &buttons).is_ok());
    assert_eq!(check_action("transfer", "c2", "c1", 1, &calls, &buttons).err().unwrap(), "TRANSFER_NEEDS_TWO_CALLS");
    match check_action("blind_transfer", "c1", " <*701> ", 1, &calls, &buttons) {
        Ok(ActionPlan::Send(target)) => assert_eq!(target, "*701"),
        _ => panic!("a button's target for a call in progress"),
    }
    assert_eq!(check_action("blind_transfer", "c2", "*701", 1, &calls, &buttons).err().unwrap(), "BUTTON_NEEDS_CALL_AND_TARGET");
    assert_eq!(check_action("blind_transfer", "c1", "999", 1, &calls, &buttons).err().unwrap(), "BUTTON_NEEDS_CALL_AND_TARGET");
    let free = vec![call("c1", "ESTABLISHED", false, 1)];
    match check_action("dial", "", " (06) 1234 ", 2, &free, &buttons) {
        Ok(ActionPlan::Send(target)) => assert_eq!(target, "061234"),
        _ => panic!("a number is reduced"),
    }
    match check_action("hangup", "c1", "", 1, &free, &buttons) {
        Ok(ActionPlan::Send(target)) => assert_eq!(target, ""),
        _ => panic!("the value goes as it came"),
    }
    assert!(link_known(&buttons, "https://pbx.example/"));
    assert!(!link_known(&buttons, "https://elsewhere.example/"));
}

#[test]
fn an_account_is_checked_and_completed() {
    let mut a = Account { server: " pbx.example ".into(), port: 5060, extension: " ".into(), auth_user: " 1001 ".into(), password: "secret".into() };
    assert!(a.validate().is_ok());
    assert_eq!((a.server.as_str(), a.extension.as_str(), a.auth_user.as_str()), ("pbx.example", "1001", "1001"));
    let view = a.public();
    assert!(view.has_password);
    let mut bad = Account { server: "pbx example".into(), ..Account::default() };
    assert_eq!(bad.validate().unwrap_err(), "ACCOUNT_SERVER_INVALID");
    let mut no_user = Account { password: "x".into(), ..Account::default() };
    assert_eq!(no_user.validate().unwrap_err(), "ACCOUNT_EXTENSION_INVALID");
    let mut no_password = Account { auth_user: "1001".into(), ..Account::default() };
    assert_eq!(no_password.validate().unwrap_err(), "ACCOUNT_PASSWORD_INVALID");
    assert!(!Account::default().public().has_password);
    let previous = Account { auth_user: "1001".into(), password: "old".into(), ..Account::default() };
    let again = Account { auth_user: " 1001 ".into(), ..Account::default() };
    assert_eq!(password_for(Some(previous), &again), Ok("old".to_string()));
    let other = Account { auth_user: "1002".into(), password: "old".into(), ..Account::default() };
    assert_eq!(password_for(Some(other), &again).unwrap_err(), "ACCOUNT_PASSWORD_REQUIRED");
    assert_eq!(password_for(None, &again).unwrap_err(), "ACCOUNT_PASSWORD_REQUIRED");
}

#[test]
fn a_stored_account_falls_back_to_the_default_address() {
    let a = Account::stored(String::new(), "", "101".into(), "auth101".into(), "pw".into());
    assert_eq!((a.server.as_str(), a.port), ("127.0.0.1", 5060));
    assert_eq!((a.extension.as_str(), a.auth_user.as_str(), a.password.as_str()), ("101", "auth101", "pw"));
    let b = Account::stored("192.0.2.10".into(), "5070", String::new(), "u".into(), "p".into());
    assert_eq!((b.server.as_str(), b.port), ("192.0.2.10", 5070));
    assert_eq!(Account::stored(String::new(), "+5080", String::new(), "u".into(), "p".into()).port, 5080);
    assert_eq!(Account::stored(String::new(), "70000", String::new(), "u".into(), "p".into()).port, 5060);
    assert_eq!(Account::stored(String::new(), "50 60", String::new(), "u".into(), "p".into()).port, 5060);
}

#[test]
fn a_profile_names_its_store_and_its_pipe() {
    let store = Store::for_profile(None);
    assert_eq!(store.key, "Software\\KashiharaCity\\ksip");
    assert_eq!(store.target, "KSIP/SIP/default");
    assert_eq!(pipe_name(&store), "\\\\.\\pipe\\KSIP_SIP_default");
    assert_eq!(profile_name(&store), "default");
    let test = Store::for_profile(Some("test-unit"));
    assert_eq!(test.target, "KSIP/Test/test-unit");
    assert_eq!(test.key, "Software\\KashiharaCity\\ksip\\Test\\test-unit");
    assert_eq!(Store::for_profile(Some("other")).target, "KSIP/SIP/default");
    assert_eq!(Store::for_profile(Some("test-a b")).target, "KSIP/SIP/default");
}

#[test]
fn a_link_carries_its_command() {
    assert_eq!(command_from("/ksip=123456789"), "123456789");
    assert_eq!(command_from("ksip:123456789"), "123456789");
    assert_eq!(command_from(" ksip://06-1234-5678/ "), "0612345678");
    assert_eq!(command_from("123 (456) 789."), "123456789");
}

#[test]
fn the_engine_hears_of_the_numbers_to_watch_and_reports_back() {
    let mut s = Settings::default();
    s.buttons = vec![button("dial", "701", ""), button("park", "701", ""), button("park", "702", "")];
    let list = parking_list(&s);
    assert!(list.starts_with("701,702,,"));
    assert_eq!(list.split(',').count(), 30);
    let e = event_effects("REGISTER_OK");
    assert_eq!(e.registration.as_deref(), Some("REGISTER_OK"));
    assert!(e.error.is_none());
    assert_eq!(event_effects("AUDIO_ERROR").error.as_deref(), Some("AUDIO_DEVICE_INIT_FAILED"));
    assert_eq!(event_line("CALL_INCOMING", "sip:1@x"), "CALL_INCOMING sip:1@x");
    assert!(matches!(network_step("", true, "a", Some("b"), 0), NetworkStep::Stay));
    assert!(matches!(network_step("{A}", true, "a", Some("b"), 1), NetworkStep::Tell));
    assert!(matches!(network_step("{A}", true, "a", Some("b"), 0), NetworkStep::Reconnect));
    assert!(matches!(network_step("{A}", true, "a", Some("a"), 0), NetworkStep::Stay));
    assert_eq!(microphone_choice("{gone}", None), ("default".to_string(), true));
    assert_eq!(microphone_choice("default", None), ("default".to_string(), false));
    assert_eq!(microphone_choice("{m}", Some("{m}".to_string())), ("{m}".to_string(), false));
}

#[test]
fn the_automatic_recording_follows_the_calls() {
    let calls = vec![call("a", "ESTABLISHED", false, 2), call("b", "ESTABLISHED", false, 1)];
    assert!(matches!(recording_step(true, false, "", &calls), RecordingStep::Start(id) if id == "b"));
    assert!(matches!(recording_step(true, true, "b", &calls), RecordingStep::Stay));
    assert!(matches!(recording_step(true, true, "a", &calls), RecordingStep::Follow(Some(id)) if id == "b"));
    assert!(matches!(recording_step(false, true, "a", &calls), RecordingStep::Stop));
    assert!(matches!(recording_step(true, true, "a", &[]), RecordingStep::Stop));
    let held = vec![call("a", "ESTABLISHED", true, 1)];
    assert!(matches!(recording_step(true, true, "a", &held), RecordingStep::Follow(None)));
}

#[test]
fn the_notices_are_restored_or_said_to_be_missing() {
    // A zlib stream of "abc", stored uncompressed.
    let stream = [0x78, 0x01, 0x01, 0x03, 0x00, 0xfc, 0xff, b'a', b'b', b'c', 0x02, 0x4d, 0x01, 0x27];
    assert_eq!(text(&stream).unwrap(), b"abc");
    assert_eq!(text(b"not zlib").unwrap_err(), "LICENSE_TEXT_UNAVAILABLE");
    assert_eq!(notices_from(None).unwrap_err(), "LICENSE_TEXT_UNAVAILABLE");
}

#[test]
fn the_default_settings_pass_their_own_rules() {
    let s = Settings::default();
    assert_eq!(s.microphone_gain, 100);
    assert_eq!(s.aec_delay_ms, 20);
    assert_eq!(s.register_interval, 300);
    assert_eq!(s.tray_after_call, -1);
    assert!(s.buttons.iter().all(|b| !b.configured()));
    assert_eq!(s.buttons.len(), CustomButton::COUNT);
    assert!(validate(&s, &[]).is_ok());
    let mut bad = Settings::default();
    bad.language = "de-CH".into();
    assert!(validate(&bad, &[]).is_ok());
    bad.language = "de CH".into();
    assert_eq!(validate(&bad, &[]).unwrap_err(), "SETTINGS_LANGUAGE_INVALID");
    let mut bad = Settings::default();
    bad.incoming_action = "ring".into();
    assert_eq!(validate(&bad, &[]).unwrap_err(), "SETTINGS_INCOMING_ACTION_INVALID");
    let mut bad = Settings::default();
    bad.microphone_gain = 99;
    assert_eq!(validate(&bad, &[]).unwrap_err(), "SETTINGS_GAIN_RANGE");
    let mut bad = Settings::default();
    bad.register_interval = 29;
    assert_eq!(validate(&bad, &[]).unwrap_err(), "SETTINGS_REGISTER_INTERVAL_RANGE");
    let mut bad = Settings::default();
    bad.sip_port = 1023;
    assert_eq!(validate(&bad, &[]).unwrap_err(), "SETTINGS_PORT_RANGE");
    let mut bad = Settings::default();
    bad.sound_error = "a\u{7}".into();
    assert_eq!(validate(&bad, &[]).unwrap_err(), "SETTINGS_SOUND_PATH_INVALID");
    let mut bad = Settings::default();
    bad.buttons = (0..31).map(|_| CustomButton::default()).collect();
    assert_eq!(validate(&bad, &[]).unwrap_err(), "SETTINGS_BUTTON_KIND_INVALID");
}

#[test]
fn a_link_asks_for_a_command_or_a_call() {
    assert_eq!(parse("ksip:ANSWER"), Link::Answer);
    assert_eq!(parse("/ksip=ksip:HANGUP"), Link::Hangup);
    assert_eq!(parse("ksip:SHOWWINDOW"), Link::ShowWindow);
    assert_eq!(parse(" ksip:APP_QUIT "), Link::Quit);
    // The command words are written in upper case; anything else is called.
    assert_eq!(parse("ksip:answer"), Link::Dial("answer".into()));
    assert_eq!(parse("ksip:%2B81%206%201234"), Link::Dial("+81 6 1234".into()));
    assert_eq!(parse("ksip:*8%23"), Link::Dial("*8#".into()));
    assert_eq!(parse("ksip://1001/"), Link::Dial("1001".into()));
    assert_eq!(parse("ksip:sip:sales@pbx.example"), Link::Dial("sip:sales@pbx.example".into()));
    // Only the escape of an ASCII character is read back.
    assert_eq!(parse("ksip:%E3%81%82%2"), Link::Dial("%E3%81%82%2".into()));
    assert!(is_link("ksip:1001"));
    assert!(is_link("/ksip=ksip:1001"));
    assert!(!is_link("1001"));
    assert!(!is_link("--engine"));
}

#[test]
fn only_a_new_authentication_user_asks_for_the_password_again() {
    let account = Account {
        server: "127.0.0.1".into(),
        port: 5060,
        extension: "1001".into(),
        auth_user: "1001".into(),
        password: "local-test-only".into(),
    };
    let stored = || Some(Account { password: account.password.clone(), auth_user: account.auth_user.clone(), ..Account::default() });
    // The address moved out of the vault, so changing it needs no password.
    let moved = Account { port: 5061, server: "192.0.2.10".into(), extension: "1002".into(), password: String::new(), auth_user: "1001".into() };
    assert_eq!(password_for(stored(), &moved), Ok(account.password.clone()));
    // The password belongs to the authentication user, so that one does.
    let other = Account { auth_user: "1099".into(), password: String::new(), ..Account::default() };
    assert!(password_for(stored(), &other).is_err());
}

#[test]
fn an_engine_reply_gives_its_data_or_its_reason() {
    assert_eq!(ksip::engine::reply("ksip_state", true, Some("{}")), Ok("{}".to_string()));
    assert_eq!(ksip::engine::reply("ksip_login", true, None), Ok(String::new()));
    let refused = ksip::engine::reply("lab_record", false, Some("no call")).unwrap_err();
    assert_eq!(ksip::message::split(&refused), ("ENGINE_COMMAND_FAILED".to_string(), vec!["lab_record".to_string(), "no call".to_string()]));
    let silent = ksip::engine::reply("lab_stop", false, None).unwrap_err();
    assert_eq!(ksip::message::split(&silent).1, vec!["lab_stop".to_string(), "ACTION_FAILED".to_string()]);
}

#[test]
fn a_leading_tel_is_read_like_the_bare_number() {
    assert_eq!(dial_target("tel:0612345678"), Ok("0612345678".into()));
    assert_eq!(dial_target("TEL:06-1234-5678"), Ok("0612345678".into()));
    assert_eq!(dial_target("tel:+81-6-1234-5678"), Ok("+81612345678".into()));
    assert!(dial_target("tel:").is_err());
}

#[test]
fn every_documented_button_kind_is_accepted_with_its_number() {
    let with = |buttons: Vec<CustomButton>| Settings { buttons, ..Settings::default() };
    let speed = |number: &str| with(vec![button("speed", number, "")]);
    assert!(validate(&speed("06-1234-5678"), &[]).is_ok());
    assert!(validate(&speed("tel:0612345678"), &[]).is_ok());
    assert!(validate(&speed("+81-6-1234-5678"), &[]).is_ok());
    assert!(validate(&speed("sip:sales@pbx.example"), &[]).is_ok());
    assert_eq!(validate(&speed(""), &[]).unwrap_err(), "SETTINGS_BUTTON_NUMBER_INVALID");
    assert_eq!(validate(&speed("sales"), &[]).unwrap_err(), "SETTINGS_BUTTON_NUMBER_INVALID");
    // Separators are only for numbers that are dialled, not for those watched.
    assert_eq!(validate(&with(vec![button("dial", "06-1234", "")]), &[]).unwrap_err(), "SETTINGS_BUTTON_NUMBER_INVALID");
    assert!(validate(&with(vec![button("dnd", "", "")]), &[]).is_ok());
    assert!(validate(&with(vec![button("mwi", "*97", "")]), &[]).is_ok());
    assert!(validate(&with(vec![button("mwi", "sip:vm@pbx.example", "")]), &[]).is_ok());
    assert_eq!(validate(&with(vec![button("mwi", "", "")]), &[]).unwrap_err(), "SETTINGS_BUTTON_NUMBER_INVALID");
    assert_eq!(validate(&with(vec![button("redial", "1", "")]), &[]).unwrap_err(), "SETTINGS_BUTTON_KIND_INVALID");
    // Neither watches: the engine subscribes to nothing for them.
    let s = with(vec![button("speed", "1002", ""), button("mwi", "*97", ""), button("dnd", "", "")]);
    assert!(s.watched_numbers().is_empty());
}

#[test]
fn paths_and_passwords_are_counted_in_characters() {
    assert!(validate(&Settings { ca_file: "あ".repeat(150), ..Settings::default() }, &[]).is_ok());
    assert!(validate(&Settings { ca_file: "あ".repeat(400), ..Settings::default() }, &[]).is_ok());
    assert_eq!(
        validate(&Settings { ca_file: "a".repeat(401), ..Settings::default() }, &[]).unwrap_err(),
        "SETTINGS_CA_FILE_INVALID"
    );
    assert!(validate(&Settings { sound_ring: "あ".repeat(400), ..Settings::default() }, &[]).is_ok());
}

#[test]
fn a_password_is_counted_in_characters() {
    let account = |password: String| Account { server: "pbx.example".into(), port: 5060, extension: String::new(), auth_user: "1001".into(), password };
    assert!(account("あ".repeat(200)).validate().is_ok());
    assert!(account("あ".repeat(512)).validate().is_ok());
    assert_eq!(account("a".repeat(513)).validate().unwrap_err(), "ACCOUNT_PASSWORD_INVALID");
}

#[test]
fn the_codecs_are_offered_in_the_chosen_order() {
    let mut s = Settings::default();
    assert_eq!(s.codec_order(), "opus,G722,PCMU,PCMA");
    s.codecs = " PCMA , opus".into();
    assert!(validate(&s, &[]).is_ok());
    assert_eq!(s.codec_order(), "PCMA,opus");
    s.codecs = "PCMU,PCMU".into();
    assert_eq!(validate(&s, &[]).unwrap_err(), "SETTINGS_CODECS_INVALID");
    s.codecs = "opus,speex".into();
    assert_eq!(validate(&s, &[]).unwrap_err(), "SETTINGS_CODECS_INVALID");
    s.codecs = "opus,,PCMU".into();
    assert_eq!(validate(&s, &[]).unwrap_err(), "SETTINGS_CODECS_INVALID");
    s.codecs = "   ".into();
    assert!(validate(&s, &[]).is_ok());
    assert_eq!(s.codec_order(), "opus,G722,PCMU,PCMA");
}
