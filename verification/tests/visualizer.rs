use lightbox::processing::FFT_OUT_LENGTH;
use lightbox::visualizer::{render_len, BasicFFT, Rgb};

fn test_map() -> &'static [Rgb; 256] {
    let mut map = [[0u8; 3]; 256];
    for (i, c) in map.iter_mut().enumerate() {
        *c = [i as u8, 255 - i as u8, (i as u8).wrapping_mul(3)];
    }
    Box::leak(Box::new(map))
}

#[test]
fn render_len_is_whole_triples_up_to_bins() {
    assert_eq!(render_len(0), 0);
    assert_eq!(render_len(2), 0);
    assert_eq!(render_len(10), 3);
    assert_eq!(render_len(432), 144);
    assert_eq!(render_len(3 * 512), 512);
    assert_eq!(render_len(5000), 512);
}

#[test]
fn render_writes_colour_of_each_level() {
    let map = test_map();
    let mut levels = vec![0usize; FFT_OUT_LENGTH];
    levels[0] = 7;
    levels[1] = 255;
    levels[2] = 0;
    levels[3] = 100;
    levels[4] = 7; // beyond the LEDs: never read
    let mut out = vec![9u8; 14];
    BasicFFT::new().render_levels(&levels, map, &mut out[..]);
    assert_eq!(
        out,
        vec![7, 248, 21, 255, 0, 253, 0, 255, 0, 100, 155, 44, 9, 9]
    );
}

#[test]
fn levels_past_the_map_are_clipped_to_its_top() {
    let map = test_map();
    let mut levels = vec![0usize; FFT_OUT_LENGTH];
    levels[0] = 256;
    levels[1] = usize::MAX;
    levels[2] = 255;
    let mut out = [0u8; 9];
    BasicFFT::new().render_levels(&levels, map, &mut out);
    assert_eq!(out[0..3], map[255]);
    assert_eq!(out[3..6], map[255]);
    assert_eq!(out[6..9], map[255]);
}

#[test]
fn render_fills_at_most_one_led_per_bin() {
    let map = test_map();
    let levels: Vec<usize> = (0..FFT_OUT_LENGTH).map(|i| i % 256).collect();
    let mut out = vec![1u8; 3 * 600];
    BasicFFT::new().render_levels(&levels, map, &mut out[..]);
    for i in 0..FFT_OUT_LENGTH {
        assert_eq!(out[3 * i..3 * i + 3], map[i % 256]);
    }
    assert!(out[3 * FFT_OUT_LENGTH..].iter().all(|&b| b == 1));
}
