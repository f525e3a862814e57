use wasm_ca::audio::stereo_stream;

#[test]
fn stereo_stream_interleaves_each_segment() {
    let s = stereo_stream(&vec![1, 2, 3], &vec![10, 20, 30], &vec![4, 5], &vec![40, 50]);
    assert_eq!(s, vec![1, 10, 2, 20, 3, 30, 4, 40, 5, 50]);
}

#[test]
fn stereo_stream_of_float_samples() {
    let s = stereo_stream(&vec![0.5f32, 0.25], &vec![-0.5f32, -0.25], &vec![], &vec![]);
    assert_eq!(s, vec![0.5, -0.5, 0.25, -0.25]);
}

#[test]
fn uneven_channels_end_with_the_longer_one() {
    let s = stereo_stream(&vec![1, 2, 3, 4], &vec![9], &vec![7], &vec![8, 8, 8]);
    assert_eq!(s, vec![1, 9, 2, 3, 4, 7, 8, 8, 8]);
}
