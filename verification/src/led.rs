//! State of the LED controller: its configuration, the framing of the
//! incoming sample stream and the cursor of the averaging window.
use vstd::prelude::*;
use crate::processing::{
    FFT_LENGTH, FFT_OUT_LENGTH, Window, window_for, spec_window_for, chunks, chunk_remainder, vec_views,
};
use crate::visualizer::Rgb;

verus! {

/// Settings of the LED controller.
pub struct LEDConfig {
    /// Number of LEDs in the chain
    pub led_count: usize,
    /// Size of averaging window
    pub average_count: usize,
    /// Color mapping
    pub color_map: &'static [Rgb; 256],
    /// Whether to apply a Hamming window to the incoming samples
    pub hamming_window: bool,
}

/// First LED that shows a spectrum bin; the LEDs before it stay dark.
pub const SPECTRUM_PIXEL_OFFSET: usize = 8;

impl LEDConfig {
    /// The window that the processor applies: Hamming when asked for, none
    /// otherwise.
    pub fn window_mode(&self) -> (w: Window)
        ensures
            w == spec_window_for(self.hamming_window),
            self.hamming_window ==> w == Window::Hamming,
            !self.hamming_window ==> w == Window::NoWindow,
    {
        window_for(self.hamming_window)
    }

    /// Length of the averaging buffer: `average_count` values per spectrum bin.
    pub fn averaging_len(&self) -> (n: usize)
        requires
            FFT_OUT_LENGTH * self.average_count <= usize::MAX,
        ensures
            n == FFT_OUT_LENGTH * self.average_count,
    {
        FFT_OUT_LENGTH * self.average_count
    }
}

/// The averaging slot after `index`: one further on, wrapping around at
/// `average_count` (the increment itself wraps at `usize::MAX`).
pub open spec fn spec_next_average_index(index: usize, average_count: usize) -> int {
    if index == usize::MAX {
        0
    } else {
        (index + 1) % (average_count as int)
    }
}

/// The cursor moves one slot on and wraps to slot 0 only after the last slot
/// `average_count - 1`.
pub proof fn lemma_average_cursor_steps(index: usize, average_count: usize)
    requires
        average_count > 0,
    ensures
        index < usize::MAX ==> spec_next_average_index(index, average_count) == (index + 1) % (
        average_count as int),
        index + 1 < average_count ==> spec_next_average_index(index, average_count) == index + 1,
        index + 1 == average_count ==> spec_next_average_index(index, average_count) == 0,
        0 <= spec_next_average_index(index, average_count) < average_count,
{
    if index + 1 < average_count {
        vstd::arithmetic::div_mod::lemma_small_mod((index + 1) as nat, average_count as nat);
    }
    if index + 1 == average_count {
        vstd::arithmetic::div_mod::lemma_mod_self_0(average_count as int);
    }
}

/// Advances the averaging cursor after a frame has been shown.
pub fn next_average_index(index: usize, average_count: usize) -> (next: usize)
    requires
        average_count > 0,
    ensures
        next == spec_next_average_index(index, average_count),
        next < average_count,
        index < usize::MAX ==> next == (index + 1) % (average_count as int),
        index + 1 < average_count ==> next == index + 1,
{
    let stepped: usize = if index == usize::MAX {
        0
    } else {
        index + 1
    };
    proof {
        lemma_average_cursor_steps(index, average_count);
    }
    stepped % average_count
}

/// The LED that shows spectrum bin `bin`.
pub fn spectrum_pixel(bin: usize) -> (pixel: usize)
    requires
        bin + SPECTRUM_PIXEL_OFFSET <= usize::MAX,
    ensures
        pixel == bin + SPECTRUM_PIXEL_OFFSET,
{
    bin + SPECTRUM_PIXEL_OFFSET
}

/// Collects a stream of samples into frames of `FFT_LENGTH` samples.
pub struct SampleFramer<T> {
    pending: Vec<T>,
}

impl<T> View for SampleFramer<T> {
    type V = Seq<T>;

    /// The samples received since the last complete frame.
    closed spec fn view(&self) -> Seq<T> {
        self.pending@
    }
}

/// One step of the framing: pushing a sample to a stream whose remainder is
/// shorter than a frame.
proof fn lemma_chunks_push<T>(s: Seq<T>, x: T)
    ensures
        chunk_remainder(s, FFT_LENGTH as nat).len() + 1 < FFT_LENGTH ==> {
            &&& chunks(s.push(x), FFT_LENGTH as nat) == chunks(s, FFT_LENGTH as nat)
            &&& chunk_remainder(s.push(x), FFT_LENGTH as nat) == chunk_remainder(
                s,
                FFT_LENGTH as nat,
            ).push(x)
        },
        chunk_remainder(s, FFT_LENGTH as nat).len() + 1 == FFT_LENGTH ==> {
            &&& chunks(s.push(x), FFT_LENGTH as nat) == chunks(s, FFT_LENGTH as nat).push(
                chunk_remainder(s, FFT_LENGTH as nat).push(x),
            )
            &&& chunk_remainder(s.push(x), FFT_LENGTH as nat) == Seq::<T>::empty()
        },
{
    let n = FFT_LENGTH as int;
    let q = s.len() as int / n;
    let t = s.push(x);
    let r = chunk_remainder(s, FFT_LENGTH as nat);
    assert forall|k: int| 0 <= k < q implies #[trigger] t.subrange(k * n, k * n + n)
        =~= s.subrange(k * n, k * n + n) by {
        assert(k * n + n <= q * n);
    }
    if r.len() + 1 < n {
        assert(t.len() as int / n == q);
        assert(chunks(t, FFT_LENGTH as nat) =~= chunks(s, FFT_LENGTH as nat));
        assert(chunk_remainder(t, FFT_LENGTH as nat) =~= r.push(x));
    } else if r.len() + 1 == n {
        assert(t.len() as int / n == q + 1);
        assert(t.subrange(q * n, q * n + n) =~= r.push(x));
        assert(chunks(t, FFT_LENGTH as nat) =~= chunks(s, FFT_LENGTH as nat).push(r.push(x)));
        assert(chunk_remainder(t, FFT_LENGTH as nat) =~= Seq::<T>::empty());
    }
}

/// What is left over never makes up a whole frame.
proof fn lemma_remainder_short<T>(s: Seq<T>)
    ensures
        chunk_remainder(s, FFT_LENGTH as nat).len() < FFT_LENGTH,
{
}

/// Framing does not depend on how the stream is cut into calls: the frames
/// of `s` followed by the frames of what `s` leaves over extended by `b` are
/// the frames of `s + b`, and the same samples are left over.
pub proof fn lemma_framing_split<T>(s: Seq<T>, b: Seq<T>)
    ensures
        chunks(s, FFT_LENGTH as nat) + chunks(
            chunk_remainder(s, FFT_LENGTH as nat) + b,
            FFT_LENGTH as nat,
        ) == chunks(s + b, FFT_LENGTH as nat),
        chunk_remainder(chunk_remainder(s, FFT_LENGTH as nat) + b, FFT_LENGTH as nat)
            == chunk_remainder(s + b, FFT_LENGTH as nat),
    decreases b.len(),
{
    let n = FFT_LENGTH as nat;
    let r = chunk_remainder(s, n);
    if b.len() == 0 {
        lemma_remainder_short(s);
        assert(r + b =~= r);
        assert(s + b =~= s);
        assert(r.len() / n == 0);
        assert(chunks(r, n) =~= Seq::<Seq<T>>::empty());
        assert(chunk_remainder(r, n) =~= r);
        assert(chunks(s, n) + chunks(r, n) =~= chunks(s, n));
    } else {
        let b0 = b.drop_last();
        let x = b.last();
        lemma_framing_split(s, b0);
        lemma_remainder_short(r + b0);
        lemma_remainder_short(s + b0);
        lemma_chunks_push(r + b0, x);
        lemma_chunks_push(s + b0, x);
        assert((r + b0).push(x) =~= r + b);
        assert((s + b0).push(x) =~= s + b);
        let left = chunks(s, n) + chunks(r + b0, n);
        if chunk_remainder(r + b0, n).len() + 1 == FFT_LENGTH {
            assert(chunks(s, n) + chunks(r + b0, n).push(chunk_remainder(r + b0, n).push(x))
                =~= left.push(chunk_remainder(r + b0, n).push(x)));
        }
    }
}

/// A framer that has received nothing frames a stream exactly as the stream's
/// complete chunks of `FFT_LENGTH` samples, and keeps the incomplete tail.
pub proof fn lemma_fresh_framing_is_chunking<T>(s: Seq<T>)
    ensures
        chunks(Seq::<T>::empty() + s, FFT_LENGTH as nat) == chunks(s, FFT_LENGTH as nat),
        chunk_remainder(Seq::<T>::empty() + s, FFT_LENGTH as nat).len() == (s.len() as int) % (
        FFT_LENGTH as int),
{
    assert(Seq::<T>::empty() + s =~= s);
}

impl<T> SampleFramer<T> {
    /// The pending samples never make up a whole frame.
    #[verifier::type_invariant]
    spec fn wf(&self) -> bool {
        self.pending@.len() < FFT_LENGTH
    }
}

impl<T: Copy> SampleFramer<T> {
    /// A framer that has received nothing.
    pub fn new() -> (f: Self)
        ensures
            f@ == Seq::<T>::empty(),
    {
        SampleFramer { pending: Vec::new() }
    }

    /// Number of samples received since the last complete frame.
    pub fn pending_len(&self) -> (n: usize)
        ensures
            n == self@.len(),
            n < FFT_LENGTH,
    {
        proof {
            use_type_invariant(self);
        }
        self.pending.len()
    }

    /// Takes in `samples` and hands out, in order, each frame that they
    /// complete: the complete chunks of the pending samples followed by
    /// `samples`. What is left stays pending.
    pub fn feed_samples(&mut self, samples: &[T]) -> (frames: Vec<Vec<T>>)
        ensures
            final(self)@.len() < FFT_LENGTH,
            vec_views(frames@) == chunks(old(self)@ + samples@, FFT_LENGTH as nat),
            final(self)@ == chunk_remainder(old(self)@ + samples@, FFT_LENGTH as nat),
            frames@.len() == ((old(self)@.len() + samples@.len()) as int) / (FFT_LENGTH as int),
            forall|k: int|
                0 <= k < frames@.len() ==> #[trigger] frames@[k]@ == (old(self)@ + samples@).subrange(
                    k * FFT_LENGTH,
                    k * FFT_LENGTH + FFT_LENGTH,
                ),
            final(self)@ == (old(self)@ + samples@).subrange(
                frames@.len() * FFT_LENGTH,
                (old(self)@.len() + samples@.len()) as int,
            ),
    {
        proof {
            use_type_invariant(&*self);
        }
        let mut pending: Vec<T> = Vec::new();
        std::mem::swap(&mut pending, &mut self.pending);
        let ghost start = pending@;
        let mut frames: Vec<Vec<T>> = Vec::new();
        let mut i: usize = 0;
        assert(start + samples@.subrange(0, 0) =~= start);
        assert(start.len() / (FFT_LENGTH as nat) == 0);
        assert(chunks(start, FFT_LENGTH as nat) =~= Seq::<Seq<T>>::empty());
        assert(chunk_remainder(start, FFT_LENGTH as nat) =~= start);
        while i < samples.len()
            invariant
                i <= samples@.len(),
                pending@.len() < FFT_LENGTH,
                vec_views(frames@) == chunks(
                    start + samples@.subrange(0, i as int),
                    FFT_LENGTH as nat,
                ),
                pending@ == chunk_remainder(
                    start + samples@.subrange(0, i as int),
                    FFT_LENGTH as nat,
                ),
            decreases samples@.len() - i,
        {
            let ghost seen = start + samples@.subrange(0, i as int);
            let x = samples[i];
            proof {
                lemma_chunks_push(seen, x);
                assert(start + samples@.subrange(0, i + 1) =~= seen.push(x));
            }
            pending.push(x);
            if pending.len() == FFT_LENGTH {
                let mut full: Vec<T> = Vec::new();
                std::mem::swap(&mut full, &mut pending);
                frames.push(full);
                assert(vec_views(frames@) =~= chunks(seen, FFT_LENGTH as nat).push(full@));
            } else {
                assert(vec_views(frames@) =~= chunks(seen, FFT_LENGTH as nat));
            }
            i = i + 1;
        }
        assert(samples@.subrange(0, samples@.len() as int) =~= samples@);
        self.pending = pending;
        proof {
            let all = start + samples@;
            assert(frames@.len() == vec_views(frames@).len());
            assert forall|k: int| 0 <= k < frames@.len() implies #[trigger] frames@[k]@ == all.subrange(
                k * FFT_LENGTH,
                k * FFT_LENGTH + FFT_LENGTH,
            ) by {
                assert(vec_views(frames@)[k] == frames@[k]@);
            }
        }
        frames
    }
}

} // verus!
