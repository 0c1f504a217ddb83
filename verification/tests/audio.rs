use ksip::audio::{aggregate_careful, check_device_choice, delay_estimate, downsample, gain_for, level_request, mix_format, peak_arguments, shown_level, volume_arguments, Calibration, Device, SampleKind};
use ksip::message::split;

/// How sure a careful measurement is, as the app computes it.
fn confidence(mean: u32, spread: u16, successful: usize, attempted: usize) -> u8 {
    let stability = (1.0 - (spread as f32 / 40.0).min(0.50)) * (successful as f32 / attempted as f32);
    (mean as f32 * stability).round() as u8
}

fn run(measured_ms: u16) -> Calibration {
    Calibration { measured_ms, recommended_ms: measured_ms, confidence: 80, samples: 2, spread_ms: 0, stable: true }
}

#[test]
fn unstable_careful_measurement_still_returns_a_reference_value() {
    let result = aggregate_careful(vec![run(300), run(340), run(380), run(420)], 5, "", confidence).unwrap();
    assert!(!result.stable);
    assert_eq!(result.recommended_ms, 380);
    assert_eq!(result.samples, 2);
}

#[test]
fn runs_that_agree_make_a_stable_measurement() {
    let result = aggregate_careful(vec![run(84), run(80), run(82), run(83), run(81)], 5, "", confidence).unwrap();
    assert!(result.stable);
    assert_eq!(result.measured_ms, 82);
    assert_eq!(result.spread_ms, 4);
    assert_eq!(result.samples, 10);
    assert_eq!(result.confidence, confidence(80, 4, 5, 5));
    // Two middle runs give their mean.
    let even = aggregate_careful(vec![run(100), run(104), run(101), run(103)], 4, "", confidence).unwrap();
    assert_eq!(even.measured_ms, 102);
}

#[test]
fn no_run_at_all_is_a_failed_measurement() {
    let failed = aggregate_careful(vec![], 5, "no signal", confidence).unwrap_err();
    assert_eq!(failed, "{\"args\":[\"no signal\"],\"code\":\"CALIBRATION_NO_RESULT\"}");
}

#[test]
fn volume_arguments_are_checked_before_windows_sees_them() {
    assert!(volume_arguments("speaker", "default", Some(100)).is_ok());
    assert!(volume_arguments("other", "default", None).is_err());
    assert!(volume_arguments("speaker", "bad\0id", None).is_err());
    assert!(volume_arguments("speaker", "", None).is_err());
    assert!(volume_arguments("speaker", "default", Some(101)).is_err());
    assert!(peak_arguments("other", "default").is_err());
    assert!(peak_arguments("microphone", "bad\0id").is_err());
    assert!(level_request("speaker", Some(201)).is_err());
    assert!(level_request("speaker", Some(200)).is_ok());
    assert_eq!(gain_for(150), 150);
    assert_eq!(gain_for(40), 100);
    assert_eq!(shown_level(40, 150), 150);
    assert_eq!(shown_level(40, 100), 40);
}

#[test]
fn a_device_is_chosen_among_those_listed() {
    let devices = vec![Device { id: "{mic}".into(), name: "Mic".into(), kind: "microphone".into() }];
    assert!(check_device_choice("microphone", "{mic}", &devices).is_ok());
    assert!(check_device_choice("speaker", "{mic}", &devices).is_err());
    assert!(check_device_choice("speaker", "default", &devices).is_ok());
    assert_eq!(check_device_choice("other", "default", &devices).unwrap_err(), "SETTINGS_AUDIO_DEVICE_INVALID");
}

#[test]
fn the_delays_of_one_measurement_give_their_mean() {
    assert_eq!(delay_estimate(&[73, 75], 2, 2), Ok((74, 2)));
    assert_eq!(delay_estimate(&[70, 73, 71], 2, 2), Ok((71, 3)));
    assert_eq!(delay_estimate(&[-5, -3], 2, 2), Ok((0, 2)));
    assert_eq!(delay_estimate(&[510, 512], 2, 2), Ok((500, 2)));
    assert_eq!(delay_estimate(&[70, 91], 2, 2), Err("CALIBRATION_TOO_UNSTABLE".to_string()));
    let unclear = delay_estimate(&[70], 2, 2).unwrap_err();
    assert_eq!(split(&unclear), ("CALIBRATION_SIGNAL_UNCLEAR".to_string(), vec!["1".to_string(), "2".to_string()]));
}

#[test]
fn a_mix_format_is_read_or_refused() {
    let f = mix_format(true, false, 32, 48000, 2, 8).unwrap();
    assert_eq!((f.kind, f.rate, f.channels, f.block), (SampleKind::Float32, 48000, 2, 8));
    assert_eq!(mix_format(false, true, 24, 44100, 1, 3).unwrap().kind, SampleKind::Pcm24);
    assert_eq!(mix_format(false, true, 12, 44100, 1, 2).unwrap_err(), "AUDIO_SAMPLE_FORMAT_UNSUPPORTED");
    assert_eq!(mix_format(true, false, 16, 44100, 1, 2).unwrap_err(), "AUDIO_SAMPLE_FORMAT_UNSUPPORTED");
    assert_eq!(mix_format(false, true, 16, 4000, 1, 2).unwrap_err(), "AUDIO_DEVICE_FORMAT_INVALID");
    assert_eq!(mix_format(false, true, 16, 48000, 0, 2).unwrap_err(), "AUDIO_DEVICE_FORMAT_INVALID");
}

#[test]
fn downsampling_keeps_the_first_sample_of_each_stretch() {
    let input: Vec<u32> = (0..12).collect();
    assert_eq!(downsample(&input, 48000, 8000), vec![0, 6]);
    assert_eq!(downsample(&input, 3, 2), vec![0, 1, 3, 4, 6, 7, 9, 10]);
    let samples = [0.5f32, 0.25, -0.5, 1.0];
    assert_eq!(downsample(&samples, 2, 1), vec![0.5, -0.5]);
    assert!(downsample::<u8>(&[], 48000, 8000).is_empty());
}

#[test]
fn reject_invalid_volume_without_launching_helper() {
    assert!(level_request("other", None).is_err());
    assert!(level_request("speaker", Some(201)).is_err());
    assert!(volume_arguments("microphone", "bad\0id", None).is_err());
    assert!(peak_arguments("other", "default").is_err());
    assert!(peak_arguments("microphone", "bad\0id").is_err());
}
