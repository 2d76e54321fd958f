use nhvsampler::model::{get_vocoder, pool_size};

#[test]
fn pool_size_bounds() {
    assert_eq!(pool_size(2, 8), 2);
    assert_eq!(pool_size(16, 4), 4);
    assert_eq!(pool_size(0, 4), 1);
    assert_eq!(pool_size(3, 0), 1);
}

#[test]
fn vocoder_round_robin() {
    let pool = vec!["a", "b", "c"];
    let served: Vec<&str> = (0..7).map(|t| *get_vocoder(&pool, t)).collect();
    assert_eq!(served, vec!["a", "b", "c", "a", "b", "c", "a"]);
    assert_eq!(*get_vocoder(&pool, usize::MAX), "a");
}
