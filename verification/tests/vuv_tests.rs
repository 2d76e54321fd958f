use nhvsampler::utils::vuv::smooth_uv;

#[test]
fn smooth_removes_isolated_frames() {
    let uv = [true, true, true, false, true, true, true];
    assert_eq!(smooth_uv(&uv), vec![true; 7]);
    let uv = [false, false, true, false, false];
    assert_eq!(smooth_uv(&uv), vec![false; 5]);
}

#[test]
fn smooth_keeps_constant_tracks() {
    assert_eq!(smooth_uv(&[true; 9]), vec![true; 9]);
    assert_eq!(smooth_uv(&[false; 9]), vec![false; 9]);
    assert!(smooth_uv(&[]).is_empty());
}

#[test]
fn smooth_ties_count_as_unvoiced() {
    // Frame 2 sees frames 0..=3, two of them set: a tie, which counts as set.
    assert_eq!(smooth_uv(&[true, true, false, false]), vec![true, true, true, false]);
    // Frame 1 of this track ends up isolated after the vote and is removed.
    assert_eq!(smooth_uv(&[false, true, false, true, false, false]), vec![false; 6]);
}

#[test]
fn smooth_single_frame() {
    assert_eq!(smooth_uv(&[true]), vec![true]);
    assert_eq!(smooth_uv(&[false]), vec![false]);
}
