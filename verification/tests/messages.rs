use ksip::message::{is_code, message, message_with, split, windows_text, windows_text_with};

#[test]
fn a_message_is_its_name_and_its_values() {
    assert_eq!(message("ADAPTER_MISSING"), "ADAPTER_MISSING");
    let text = message_with("ENGINE_EXITED", &["3"]);
    assert_eq!(split(&text), ("ENGINE_EXITED".into(), vec!["3".to_string()]));
}

#[test]
fn a_value_survives_whatever_it_contains() {
    let awkward = "C:\\x, \"y\"\nz";
    let text = message_with("CREDENTIAL_WRITE_FAILED", &[awkward]);
    assert!(!text.contains('\n'), "the message stays on one line: {text}");
    assert_eq!(split(&text).1, vec![awkward.to_string()]);
}

#[test]
fn what_windows_draws_has_words_of_its_own() {
    assert_eq!(windows_text("TRAY_QUIT"), "終了");
    assert_eq!(windows_text_with("NOTIFY_INCOMING", &["1001"]), "1001 から着信");
    // An unknown name is shown as it is, rather than as nothing at all.
    assert_eq!(windows_text("NO_SUCH_NAME"), "NO_SUCH_NAME");
}

#[test]
fn prose_is_not_a_message() {
    assert!(is_code("REGISTER_OK"));
    assert!(is_code(&message_with("ENGINE_EXITED", &["3"])));
    assert!(!is_code("ua: SIP register failed"));
    assert!(!is_code("REGISTER_OK 200 OK"));
    assert!(!is_code(""));
}

#[test]
fn a_message_with_values_reads_back_with_every_value() {
    let values = ["", "{\"code\":\"X\"}", "日本語", "a,b", "tab\there"];
    let text = message_with("SOME_CODE", &values);
    assert!(text.starts_with('{'));
    let (code, args) = split(&text);
    assert_eq!(code, "SOME_CODE");
    assert_eq!(args, values.iter().map(|v| v.to_string()).collect::<Vec<_>>());
    assert!(is_code(&text));
    // A message with no name is not taken for one.
    assert!(!is_code(&message_with("", &["x"])));
}

#[test]
fn json_without_a_name_splits_into_nothing() {
    assert_eq!(split("{\"args\":[\"a\"]}"), (String::new(), Vec::<String>::new()));
    assert_eq!(split("{not json"), (String::new(), Vec::<String>::new()));
    // A value that is not a string counts as empty; a missing list as no values.
    assert_eq!(split("{\"code\":\"A\",\"args\":[1,\"b\"]}"), ("A".to_string(), vec![String::new(), "b".to_string()]));
    assert_eq!(split("{\"code\":\"A\"}"), ("A".to_string(), Vec::<String>::new()));
    assert_eq!(split("plain words"), ("plain words".to_string(), Vec::<String>::new()));
}

#[test]
fn the_words_take_every_value_in_its_place() {
    assert_eq!(windows_text_with("TRAY_OPEN", &["unused"]), "KSIPを表示");
    assert_eq!(windows_text_with("{0} and {1} and {0}", &["a", "b"]), "a and b and a");
    assert_eq!(windows_text_with("{1}", &["a"]), "{1}");
}
