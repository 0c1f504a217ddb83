use ksip::trust::{base64, windows_pem};

#[test]
fn base64_matches_the_standard_alphabet_and_padding() {
    assert_eq!(base64(b""), "");
    assert_eq!(base64(b"M"), "TQ==");
    assert_eq!(base64(b"Ma"), "TWE=");
    assert_eq!(base64(b"Man"), "TWFu");
    assert_eq!(base64(&[0xfb, 0xff, 0xbf]), "+/+/");
}

#[test]
fn certificates_become_pem_in_lines_of_sixty_four() {
    let der: Vec<u8> = (0..100u8).collect();
    let pem = windows_pem(&[der.clone(), Vec::new()]).unwrap();
    assert!(pem.starts_with("-----BEGIN CERTIFICATE-----\n"));
    assert!(pem.ends_with("-----END CERTIFICATE-----\n"));
    assert!(pem.lines().all(|line| line.len() <= 64 || line.starts_with("-----")));
    let body: String = pem.lines().filter(|l| !l.starts_with("-----")).collect();
    assert_eq!(body, base64(&der));
    assert_eq!(pem.matches("BEGIN CERTIFICATE").count(), 1, "an empty one is left out");
}

#[test]
fn a_store_without_certificates_is_refused() {
    assert_eq!(windows_pem(&[]).unwrap_err(), "TRUST_STORE_EMPTY");
    assert_eq!(windows_pem(&[Vec::new()]).unwrap_err(), "TRUST_STORE_EMPTY");
}
