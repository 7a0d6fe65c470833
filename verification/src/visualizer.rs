//! The basic spectrum visualizer: the part that turns quantized spectrum
//! levels into LED colours.
use vstd::prelude::*;
use crate::processing::FFT_OUT_LENGTH;

verus! {

/// One RGB colour.
pub type Rgb = [u8; 3];

/// Number of entries in a colour map.
pub const COLOR_MAP_LEN: usize = 256;

/// The basic visualizer: a magnitude spectrum in decibels, one colour per LED.
pub struct BasicFFT;

/// How many LEDs a render fills: one per spectrum bin, as far as the output
/// has room for whole RGB triples.
pub open spec fn spec_render_len(output_len: int) -> int {
    if FFT_OUT_LENGTH < output_len / 3 {
        FFT_OUT_LENGTH as int
    } else {
        output_len / 3
    }
}

/// The colour map index of a level: levels past the top of the map are
/// clipped to its last entry.
pub open spec fn clipped_level(level: usize) -> int {
    if level < COLOR_MAP_LEN {
        level as int
    } else {
        COLOR_MAP_LEN - 1
    }
}

/// The output after a render: byte `j` of the first `3 * n` bytes is channel
/// `j % 3` of the colour that level `j / 3` picks, clipped to the map; the
/// rest is untouched.
pub open spec fn rendered(color_map: Seq<Rgb>, levels: Seq<usize>, before: Seq<u8>) -> Seq<u8> {
    Seq::new(
        before.len(),
        |j: int|
            if j < 3 * spec_render_len(before.len() as int) {
                color_map[clipped_level(levels[j / 3])][j % 3]
            } else {
                before[j]
            },
    )
}

/// Clips a level to the colour map.
pub fn clip_level(level: usize) -> (c: usize)
    ensures
        c == clipped_level(level),
{
    if level < COLOR_MAP_LEN {
        level
    } else {
        COLOR_MAP_LEN - 1
    }
}

/// Number of LEDs that a render fills for an output of `output_len` bytes.
pub fn render_len(output_len: usize) -> (n: usize)
    ensures
        n == spec_render_len(output_len as int),
        n <= FFT_OUT_LENGTH,
        3 * n <= output_len,
        n == FFT_OUT_LENGTH || output_len < 3 * n + 3,
{
    proof {
        lemma_render_len_bounds(output_len as int);
    }
    let third = output_len / 3;
    if FFT_OUT_LENGTH < third {
        FFT_OUT_LENGTH
    } else {
        third
    }
}

impl BasicFFT {
    pub fn new() -> (v: BasicFFT)
        ensures
            v == BasicFFT,
    {
        BasicFFT
    }

    /// Writes the colour of each quantized spectrum level into `output`, three
    /// bytes per LED, for as many LEDs as `render_len` gives. Levels past the
    /// top of the colour map show its last colour.
    pub fn render_levels(&self, levels: &[usize], color_map: &[Rgb; 256], output: &mut [u8])
        requires
            levels@.len() == FFT_OUT_LENGTH,
        ensures
            final(output)@ == rendered(color_map@, levels@, old(output)@),
            final(output)@.len() == old(output)@.len(),
            forall|j: int|
                0 <= j < 3 * FFT_OUT_LENGTH && j < 3 * (old(output)@.len() / 3)
                    ==> #[trigger] final(output)@[j] == color_map@[if (levels@[j / 3] < 256) {
                    levels@[j / 3] as int
                } else {
                    255
                }][j % 3],
            forall|j: int|
                0 <= j < old(output)@.len() && (j >= 3 * FFT_OUT_LENGTH || j >= 3 * (old(output)@.len() / 3))
                    ==> #[trigger] final(output)@[j] == old(output)@[j],
    {
        let len = render_len(output.len());
        let ghost before = output@;
        let mut i: usize = 0;
        while i < len
            invariant
                len == spec_render_len(before.len() as int),
                i <= len,
                levels@.len() == FFT_OUT_LENGTH,
                output@.len() == before.len(),
                forall|j: int|
                    0 <= j < output@.len() ==> #[trigger] output@[j] == (if j < 3 * i {
                        rendered(color_map@, levels@, before)[j]
                    } else {
                        before[j]
                    }),
            decreases len - i,
        {
            let level = clip_level(levels[i]);
            let rgb: Rgb = color_map[level];
            let base = i * 3;
            output[base] = rgb[0];
            output[base + 1] = rgb[1];
            output[base + 2] = rgb[2];
            assert forall|j: int| 0 <= j < output@.len() implies #[trigger] output@[j] == (if j < 3 * (
            i + 1) {
                rendered(color_map@, levels@, before)[j]
            } else {
                before[j]
            }) by {
                if base <= j < base + 3 {
                    assert(j / 3 == i as int);
                    assert(j % 3 == j - base);
                }
            }
            i = i + 1;
        }
        assert(output@ =~= rendered(color_map@, levels@, before));
        proof {
            assert forall|j: int|
                0 <= j < 3 * FFT_OUT_LENGTH && j < 3 * (before.len() / 3) implies #[trigger] output@[j]
                == color_map@[if (levels@[j / 3] < 256) {
                levels@[j / 3] as int
            } else {
                255
            }][j % 3] by {
                lemma_render_len_bounds(before.len() as int);
            }
            assert forall|j: int|
                0 <= j < before.len() && (j >= 3 * FFT_OUT_LENGTH || j >= 3 * (before.len() / 3))
                implies #[trigger] output@[j] == before[j] by {
                lemma_render_len_bounds(before.len() as int);
            }
        }
    }
}

/// The LEDs that a render fills: as many as there are bins, but no more than
/// the whole RGB triples that the output holds.
pub proof fn lemma_render_len_bounds(output_len: int)
    requires
        output_len >= 0,
    ensures
        spec_render_len(output_len) <= FFT_OUT_LENGTH,
        3 * spec_render_len(output_len) <= output_len,
        spec_render_len(output_len) == FFT_OUT_LENGTH || output_len < 3 * spec_render_len(
            output_len,
        ) + 3,
{
}

/// After a render, LED `i` (bytes `3 * i .. 3 * i + 3`) shows the colour of
/// its own bin `i`, with levels past the top of the map shown as its last
/// colour, for every LED that fits in the output up to the number of bins.
pub proof fn lemma_led_shows_its_bin(
    color_map: Seq<Rgb>,
    levels: Seq<usize>,
    before: Seq<u8>,
    i: int,
)
    requires
        0 <= i < FFT_OUT_LENGTH,
        3 * i + 3 <= before.len(),
    ensures
        rendered(color_map, levels, before).len() == before.len(),
        rendered(color_map, levels, before).subrange(3 * i, 3 * i + 3) == color_map[if (levels[i] < 256) {
            levels[i] as int
        } else {
            255
        }]@,
{
    let r = rendered(color_map, levels, before);
    assert(3 * i + 3 <= 3 * spec_render_len(before.len() as int));
    assert((3 * i) / 3 == i && (3 * i + 1) / 3 == i && (3 * i + 2) / 3 == i);
    assert((3 * i) % 3 == 0 && (3 * i + 1) % 3 == 1 && (3 * i + 2) % 3 == 2);
    assert(r.subrange(3 * i, 3 * i + 3) =~= color_map[if (levels[i] < 256) {
        levels[i] as int
    } else {
        255
    }]@);
}

/// A render leaves every byte past the filled LEDs as it was.
pub proof fn lemma_render_keeps_the_rest(
    color_map: Seq<Rgb>,
    levels: Seq<usize>,
    before: Seq<u8>,
    j: int,
)
    requires
        0 <= j < before.len(),
        j >= 3 * FFT_OUT_LENGTH || j >= 3 * (before.len() / 3),
    ensures
        rendered(color_map, levels, before)[j] == before[j],
{
    lemma_render_len_bounds(before.len() as int);
}

} // verus!
