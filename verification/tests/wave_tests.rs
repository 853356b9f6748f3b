use stepwave::error::WaveError;
use stepwave::extent::{extents, max_value, min_value};
use stepwave::normalize::{normalize, peak_abs};
use stepwave::parse::parse_series;
use stepwave::pipeline::render_samples;
use stepwave::resample::resample;
use stepwave::series::StepSeries;

fn lines(v: &[&str]) -> Vec<Vec<u8>> {
    v.iter().map(|s| s.as_bytes().to_vec()).collect()
}

fn series(v: &[&str]) -> StepSeries {
    parse_series(&lines(v)).unwrap()
}

#[test]
fn resample_holds_values() {
    // Ticks at 0, 0.5, 1, 1.5 and 2 seconds hold 0, 0, 10, 10 and 0.
    let s = series(&["0 0", "1 10", "2 0"]);
    let raw = resample(&s, 2, 0).unwrap();
    assert_eq!(
        raw,
        vec![0, 0, 10_000_000, 10_000_000, 0]
    );
}

#[test]
fn resample_is_deterministic() {
    let s = series(&["0 0", "1 10", "2 0"]);
    let a = resample(&s, 7, 300_000).unwrap();
    let b = resample(&s, 7, 300_000).unwrap();
    assert_eq!(a, b);
}

#[test]
fn resample_rejects_short_series_and_zero_rate() {
    let one = series(&["0 1"]);
    assert_eq!(resample(&one, 2, 0), Err(WaveError::EmptySeries));
    let s = series(&["0 0", "1 10"]);
    assert_eq!(resample(&s, 0, 0), Err(WaveError::EmptySeries));
}

#[test]
fn resample_rejects_start_past_end() {
    let s = series(&["0 0", "1 0"]);
    assert_eq!(resample(&s, 2, 5_000_000), Err(WaveError::EmptySeries));
}

#[test]
fn resample_clamps_negative_start() {
    let s = series(&["0 0", "1 10", "2 0"]);
    assert_eq!(resample(&s, 2, -5_000_000), resample(&s, 2, 0));
}

#[test]
fn resample_window_keeps_suffix() {
    let s = series(&["0 0", "1 10", "2 0"]);
    let full = resample(&s, 2, 0).unwrap();
    let windowed = resample(&s, 2, 1_000_000).unwrap();
    assert_eq!(windowed.as_slice(), &full[2..]);
}

#[test]
fn resample_length_tracks_window() {
    let s = series(&["0 0", "1 10"]);
    // One second at four samples a second: five ticks including both ends.
    assert_eq!(resample(&s, 4, 0).unwrap().len(), 5);
    let s2 = series(&["0 0", "2.5 1"]);
    assert_eq!(resample(&s2, 2, 0).unwrap().len(), 6);
}

#[test]
fn resample_equal_timestamps_last_wins() {
    let s = series(&["1 2", "1 3"]);
    let raw = resample(&s, 1, 0).unwrap();
    assert_eq!(raw, vec![2_000_000, 3_000_000]);
}

#[test]
fn peak_ignores_window_and_sign() {
    let s = series(&["0 -10", "1 5"]);
    assert_eq!(peak_abs(&s), 10_000_000);
}

#[test]
fn normalize_reaches_full_scale() {
    let samples: Vec<i64> = vec![0, 0, 10_000_000, 10_000_000, 0];
    let out = normalize(&samples, 10_000_000).unwrap();
    assert_eq!(out, vec![0, 0, 32767, 32767, 0]);
}

#[test]
fn normalize_truncates_toward_zero() {
    let out = normalize(&vec![-3, 5], 7).unwrap();
    // 32767 * 3 / 7 = 14043.0 and 32767 * 5 / 7 = 23405.0, fractions dropped.
    assert_eq!(out, vec![-14043, 23405]);
}

#[test]
fn normalize_rejects_zero_peak() {
    assert_eq!(
        normalize(&vec![0, 0], 0),
        Err(WaveError::DegenerateAmplitude)
    );
}

#[test]
fn render_full_pipeline() {
    let s = series(&["0 0", "1 10", "2 0"]);
    let out = render_samples(&s, 2, 0).unwrap();
    assert_eq!(out, vec![0, 0, 32767, 32767, 0]);
}

#[test]
fn render_stays_in_range() {
    let s = series(&["0 -10", "1 5", "2.5 -0.75"]);
    let out = render_samples(&s, 3, 0).unwrap();
    assert!(out.iter().all(|&v| -32767 <= v && v <= 32767));
    assert_eq!(out[0], -32767);
}

#[test]
fn render_reports_degenerate_series() {
    let s = series(&["0 0", "1 0"]);
    assert_eq!(render_samples(&s, 2, 0), Err(WaveError::DegenerateAmplitude));
}

#[test]
fn render_reports_empty_window_first() {
    let s = series(&["0 0", "1 0"]);
    assert_eq!(
        render_samples(&s, 2, 5_000_000),
        Err(WaveError::EmptySeries)
    );
}

#[test]
fn series_value_range() {
    let s = series(&["0 1", "2 5"]);
    assert_eq!(min_value(&s), 1_000_000);
    assert_eq!(max_value(&s), 5_000_000);
}

#[test]
fn extents_cover_all_series() {
    let a = series(&["0 1", "2 5"]);
    let b = series(&["1 -3", "3 2"]);
    let e = extents(&vec![a, b]).unwrap();
    assert_eq!(e.min_t, 0);
    assert_eq!(e.max_t, 3_000_000);
    assert_eq!(e.min_v, -3_000_000);
    assert_eq!(e.max_v, 5_000_000);
}

#[test]
fn extents_reject_empty() {
    assert_eq!(extents(&vec![]), None);
    let a = series(&["0 1", "2 5"]);
    let empty = StepSeries { points: vec![] };
    assert_eq!(extents(&vec![a, empty]), None);
}
