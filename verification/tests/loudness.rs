use loudnorm::meter::gated_mean;
use loudnorm::meter::is_near_silent;
use loudnorm::meter::windows_100ms;
use loudnorm::meter::ABS_GATE_POWER;
use loudnorm::meter::SAMPLE_SCALE;
use loudnorm::norm::measure_gated_power;
use loudnorm::norm::plan_normalize;
use loudnorm::norm::NormalizeAction;

#[test]
fn silent_waveform_is_unmeasured() {
    let samples = vec![0i64; 48000];
    assert!(is_near_silent(&samples));
    assert_eq!(measure_gated_power(&samples, 48000), None);
    assert_eq!(plan_normalize(&samples, 48000, false), NormalizeAction::Unchanged);
}

#[test]
fn empty_waveform_is_unmeasured() {
    let samples: Vec<i64> = Vec::new();
    assert!(is_near_silent(&samples));
    assert_eq!(measure_gated_power(&samples, 48000), None);
}

#[test]
fn near_silence_floor_boundary() {
    // 33554^2 = 1_125_870_916 is just below the floor, 33555^2 just above.
    assert!(is_near_silent(&[33554i64]));
    assert!(!is_near_silent(&[33555i64]));
}

#[test]
fn half_amplitude_measures_deterministically_and_exactly() {
    let half = SAMPLE_SCALE / 2;
    let samples = vec![half; 48000];
    let first = measure_gated_power(&samples, 48000);
    let second = measure_gated_power(&samples, 48000);
    assert_eq!(first, second);
    assert_eq!(first, Some(1u64 << 46));
}

#[test]
fn windows_partition_and_power() {
    let p = windows_100ms(&[3, -3], 10);
    assert_eq!(p, vec![9u64, 9]);
    let p = windows_100ms(&[3, 3, 3], 20);
    assert_eq!(p, vec![9u64]);
}

#[test]
fn window_power_is_mean_of_squares() {
    // Windows of two samples at rate 20: (1 + 4) / 2 and (9 + 16) / 2.
    let p = windows_100ms(&[1, 2, 3, 4], 20);
    assert_eq!(p, vec![2u64, 12]);
}

#[test]
fn gated_mean_of_two_survivors() {
    // Both above the absolute gate, both above a tenth of their mean.
    assert_eq!(gated_mean(&[100_000_000, 40_000_000]), Some(70_000_000));
}

#[test]
fn gated_mean_none_when_nothing_above_gate() {
    assert_eq!(gated_mean(&[0u64; 0]), None);
    assert_eq!(gated_mean(&[0, ABS_GATE_POWER]), None);
}

#[test]
fn relative_gate_drops_quiet_minority() {
    let huge = 1_000_000_000_000u64;
    let quiet = 34_000_000u64;
    assert_eq!(gated_mean(&[huge, quiet]), Some(huge));
}

#[test]
fn adding_loud_window_does_not_lower_power() {
    let p = 1_000_000_000u64;
    let uniform = vec![p; 5];
    let base = gated_mean(&uniform).unwrap();
    assert_eq!(base, p);
    let mut with_loud = uniform.clone();
    with_loud.push(4_000_000_000_000_000_000u64);
    let louder = gated_mean(&with_loud).unwrap();
    assert!(louder >= base);
}

#[test]
fn plan_carries_power_and_compressor_flag() {
    let half = SAMPLE_SCALE / 2;
    let samples = vec![half; 4800];
    match plan_normalize(&samples, 48000, true) {
        NormalizeAction::ApplyGain { power, compress } => {
            assert_eq!(power, 1u64 << 46);
            assert!(compress);
        }
        NormalizeAction::Unchanged => panic!("an audible waveform must be measured"),
    }
}
