use nhvsampler::audio::post_process::{fade_length, trim_region, trim_window_count};

#[test]
fn window_counts() {
    assert_eq!(trim_window_count(0), 0);
    assert_eq!(trim_window_count(881), 0);
    assert_eq!(trim_window_count(882), 1);
    assert_eq!(trim_window_count(882 + 441), 2);
    assert_eq!(trim_window_count(882 + 440), 1);
}

#[test]
fn trim_region_cases() {
    let n = trim_window_count(44100);
    let mut loud = vec![false; n];
    assert_eq!(trim_region(44100, &loud), None);
    loud[10] = true;
    loud[20] = true;
    assert_eq!(trim_region(44100, &loud), Some((4410, 20 * 441 + 5733)));
    let mut loud = vec![false; n];
    loud[0] = true;
    assert_eq!(trim_region(44100, &loud), Some((0, 5733)));
    let mut loud = vec![false; n];
    loud[n - 1] = true;
    assert_eq!(trim_region(44100, &loud), Some(((n - 1) * 441, 44100)));
}

#[test]
fn fade_lengths() {
    assert_eq!(fade_length(0), 0);
    assert_eq!(fade_length(7), 0);
    assert_eq!(fade_length(8), 2);
    assert_eq!(fade_length(1000), 250);
    assert_eq!(fade_length(100000), 8820);
}
