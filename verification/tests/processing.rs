use lightbox::processing::{
    complete_chunks, new_render_buffer, window_for, Window, FFT_LENGTH, FFT_OUT_LENGTH,
};

#[test]
fn frame_sizes() {
    assert_eq!(FFT_LENGTH, 1024);
    assert_eq!(FFT_OUT_LENGTH, 512);
}

#[test]
fn render_buffer_has_three_zero_bytes_per_led() {
    let buf = new_render_buffer(4);
    assert_eq!(buf, vec![0u8; 12]);
    assert!(new_render_buffer(0).is_empty());
    assert_eq!(new_render_buffer(144).len(), 432);
}

#[test]
fn hamming_flag_picks_window() {
    assert_eq!(window_for(true), Window::Hamming);
    assert_eq!(window_for(false), Window::NoWindow);
}

#[test]
fn complete_chunks_drop_incomplete_tail() {
    let samples: Vec<u32> = (1..=10).collect();
    let chunks = complete_chunks(&samples, 3);
    assert_eq!(chunks, vec![vec![1, 2, 3], vec![4, 5, 6], vec![7, 8, 9]]);
    assert!(complete_chunks(&samples, 11).is_empty());
    assert_eq!(complete_chunks(&samples, 10), vec![samples.clone()]);
    let empty: Vec<u32> = Vec::new();
    assert!(complete_chunks(&empty, 4).is_empty());
}

#[test]
fn complete_chunks_of_frames() {
    let samples: Vec<f32> = (0..(FFT_LENGTH * 2 + 5)).map(|i| i as f32 * 0.5).collect();
    let chunks = complete_chunks(&samples, FFT_LENGTH);
    assert_eq!(chunks.len(), 2);
    assert_eq!(chunks[0][..], samples[..FFT_LENGTH]);
    assert_eq!(chunks[1][..], samples[FFT_LENGTH..2 * FFT_LENGTH]);
}
