use ksip::wav::{to_pcm16, u16_at, u32_at, MAX_INPUT};

/// What the app turns a floating-point sample into.
fn float_sample(raw: u64, bits: u16) -> i16 {
    if bits == 32 {
        (f32::from_bits(raw as u32).clamp(-1.0, 1.0) * 32767.0) as i16
    } else {
        (f64::from_bits(raw).clamp(-1.0, 1.0) * 32767.0) as i16
    }
}

fn wav(encoding: u16, bits: u16, data: &[u8]) -> Vec<u8> {
    let mut out = Vec::new();
    out.extend_from_slice(b"RIFF");
    out.extend_from_slice(&((36 + data.len()) as u32).to_le_bytes());
    out.extend_from_slice(b"WAVEfmt ");
    out.extend_from_slice(&16u32.to_le_bytes());
    out.extend_from_slice(&encoding.to_le_bytes());
    out.extend_from_slice(&1u16.to_le_bytes());
    out.extend_from_slice(&8000u32.to_le_bytes());
    out.extend_from_slice(&0u32.to_le_bytes());
    out.extend_from_slice(&0u16.to_le_bytes());
    out.extend_from_slice(&bits.to_le_bytes());
    out.extend_from_slice(b"data");
    out.extend_from_slice(&(data.len() as u32).to_le_bytes());
    out.extend_from_slice(data);
    out
}

fn payload(converted: &[u8]) -> Vec<i16> {
    converted[44..].chunks(2).map(|c| i16::from_le_bytes([c[0], c[1]])).collect()
}

#[test]
fn converts_the_formats_a_person_is_likely_to_pick() {
    let pcm16 = wav(1, 16, &[0x00, 0x80, 0xFF, 0x7F]);
    assert_eq!(payload(&to_pcm16(&pcm16, float_sample).unwrap()), vec![-32768, 32767]);
    let float32 = wav(3, 32, &1.0f32.to_le_bytes());
    assert_eq!(payload(&to_pcm16(&float32, float_sample).unwrap()), vec![32767]);
    let pcm24 = wav(1, 24, &[0x00, 0x00, 0x40]);
    assert_eq!(payload(&to_pcm16(&pcm24, float_sample).unwrap()), vec![16384]);
    let pcm8 = wav(1, 8, &[0x80, 0xFF]);
    assert_eq!(payload(&to_pcm16(&pcm8, float_sample).unwrap()), vec![0, 32512]);
    // The header must describe 16-bit PCM whatever went in.
    let header = to_pcm16(&float32, float_sample).unwrap();
    assert_eq!(u16_at(&header, 20), 1);
    assert_eq!(u16_at(&header, 34), 16);
    assert_eq!(u32_at(&header, 24), 8000);
}

#[test]
fn refuses_what_it_cannot_turn_into_sound() {
    assert!(to_pcm16(b"not a wav at all", float_sample).is_err());
    let mut absurd = wav(1, 16, &[0x00, 0x80]);
    absurd[24..28].copy_from_slice(&u32::MAX.to_le_bytes());
    assert!(to_pcm16(&absurd, float_sample).is_err(), "a rate that overflows the header is refused");
    assert!(to_pcm16(&wav(2, 4, &[0x11]), float_sample).is_err(), "ADPCM is not decoded");
    assert!(to_pcm16(&vec![0u8; MAX_INPUT + 1], float_sample).is_err());
}

#[test]
fn each_refusal_says_why() {
    assert_eq!(to_pcm16(b"not a wav at all", float_sample).unwrap_err(), "WAV_NOT_WAV");
    assert_eq!(to_pcm16(&vec![0u8; MAX_INPUT + 1], float_sample).unwrap_err(), "WAV_TOO_LARGE");
    let mut broken = wav(1, 16, &[0, 0]);
    broken[16..20].copy_from_slice(&1000u32.to_le_bytes());
    assert_eq!(to_pcm16(&broken, float_sample).unwrap_err(), "WAV_BROKEN");
    // A data chunk before any format.
    let mut no_fmt = b"RIFF\0\0\0\0WAVE".to_vec();
    no_fmt.extend_from_slice(b"data");
    no_fmt.extend_from_slice(&2u32.to_le_bytes());
    no_fmt.extend_from_slice(&[0, 0]);
    assert_eq!(to_pcm16(&no_fmt, float_sample).unwrap_err(), "WAV_NO_FMT");
    let only_header = b"RIFF\0\0\0\0WAVE".to_vec();
    assert_eq!(to_pcm16(&only_header, float_sample).unwrap_err(), "WAV_NO_DATA");
    assert_eq!(to_pcm16(&wav(1, 16, &[0]), float_sample).unwrap_err(), "WAV_EMPTY");
    assert_eq!(to_pcm16(&wav(2, 4, &[0x11]), float_sample).unwrap_err(), "WAV_EMPTY");
    assert_eq!(
        to_pcm16(&wav(2, 16, &[0, 0]), float_sample).unwrap_err(),
        "{\"args\":[\"2\",\"16\"],\"code\":\"WAV_FORMAT_UNSUPPORTED\"}"
    );
    let mut silent = wav(1, 16, &[0, 0]);
    silent[24..28].copy_from_slice(&0u32.to_le_bytes());
    assert_eq!(to_pcm16(&silent, float_sample).unwrap_err(), "WAV_HEADER_INVALID");
}

#[test]
fn thirty_two_bit_integers_keep_their_top_half() {
    let pcm32 = wav(1, 32, &[0x00, 0x00, 0x00, 0x80, 0xFF, 0xFF, 0xFF, 0x7F]);
    assert_eq!(payload(&to_pcm16(&pcm32, float_sample).unwrap()), vec![-32768, 32767]);
    let float64 = wav(3, 64, &(-2.0f64).to_le_bytes());
    assert_eq!(payload(&to_pcm16(&float64, float_sample).unwrap()), vec![-32767]);
    let converted = to_pcm16(&pcm32, float_sample).unwrap();
    assert_eq!(&converted[..4], b"RIFF");
    assert_eq!(u32_at(&converted, 4), 36 + 4);
    assert_eq!(u32_at(&converted, 40), 4);
}

#[test]
fn a_converted_file_converts_to_itself() {
    for (encoding, bits, data) in [
        (1u16, 16u16, vec![0x00, 0x80, 0xFF, 0x7F]),
        (1, 8, vec![0x00, 0x80, 0xFF]),
        (1, 24, vec![0x00, 0x00, 0x40, 0x12, 0x34, 0x80]),
        (3, 32, [0.5f32.to_le_bytes(), (-1.0f32).to_le_bytes()].concat()),
    ] {
        let once = to_pcm16(&wav(encoding, bits, &data), float_sample).unwrap();
        let twice = to_pcm16(&once, float_sample).unwrap();
        assert_eq!(once, twice, "encoding {encoding}, {bits} bits");
    }
}
