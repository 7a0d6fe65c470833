use lightbox::led::{next_average_index, spectrum_pixel, LEDConfig, SampleFramer};
use lightbox::processing::{Window, FFT_LENGTH};
use lightbox::visualizer::Rgb;

static MAP: [Rgb; 256] = [[0u8; 3]; 256];

fn config(hamming_window: bool, average_count: usize) -> LEDConfig {
    LEDConfig {
        led_count: 144,
        average_count,
        color_map: &MAP,
        hamming_window,
    }
}

#[test]
fn config_picks_window_and_averaging_len() {
    assert_eq!(config(true, 1).window_mode(), Window::Hamming);
    assert_eq!(config(false, 1).window_mode(), Window::NoWindow);
    assert_eq!(config(false, 1).averaging_len(), 512);
    assert_eq!(config(false, 3).averaging_len(), 1536);
}

#[test]
fn average_cursor_wraps() {
    assert_eq!(next_average_index(0, 1), 0);
    assert_eq!(next_average_index(2, 5), 3);
    assert_eq!(next_average_index(4, 5), 0);
    assert_eq!(next_average_index(usize::MAX, 7), 0);
}

#[test]
fn spectrum_starts_at_ninth_led() {
    assert_eq!(spectrum_pixel(0), 8);
    assert_eq!(spectrum_pixel(511), 519);
}

#[test]
fn framer_hands_out_whole_frames_in_order() {
    let samples: Vec<f32> = (0..3000).map(|i| i as f32).collect();
    let mut framer = SampleFramer::new();
    let first = framer.feed_samples(&samples[..1000]);
    assert!(first.is_empty());
    assert_eq!(framer.pending_len(), 1000);
    let second = framer.feed_samples(&samples[1000..]);
    assert_eq!(second.len(), 2);
    assert_eq!(second[0][..], samples[..FFT_LENGTH]);
    assert_eq!(second[1][..], samples[FFT_LENGTH..2 * FFT_LENGTH]);
    assert_eq!(framer.pending_len(), 3000 - 2 * FFT_LENGTH);
}

#[test]
fn framer_exact_frame_leaves_nothing() {
    let samples: Vec<u16> = (0..FFT_LENGTH as u16).collect();
    let mut framer = SampleFramer::new();
    let frames = framer.feed_samples(&samples);
    assert_eq!(frames, vec![samples.clone()]);
    assert_eq!(framer.pending_len(), 0);
}

#[test]
fn framing_does_not_depend_on_call_boundaries() {
    let samples: Vec<u32> = (0..5000).collect();
    let mut whole = SampleFramer::new();
    let all_at_once = whole.feed_samples(&samples);
    let mut pieces = SampleFramer::new();
    let mut in_pieces = Vec::new();
    for piece in samples.chunks(700) {
        in_pieces.extend(pieces.feed_samples(piece));
    }
    assert_eq!(all_at_once, in_pieces);
    assert_eq!(whole.pending_len(), pieces.pending_len());
    assert_eq!(all_at_once.len(), 4);
}
