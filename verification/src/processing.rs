//! Frame sizes, window choice and buffers shared by the processing stages.
use vstd::prelude::*;

verus! {

/// Number of audio samples in one analysis frame.
pub const FFT_LENGTH: usize = 1024;

/// Number of spectrum bins produced from one analysis frame.
pub const FFT_OUT_LENGTH: usize = FFT_LENGTH / 2;

/// The window function applied to a frame before the transform.
#[derive(Clone, Copy, Debug, PartialEq, Eq, Structural)]
pub enum Window {
    /// Leaves the samples as they are.
    NoWindow,
    Blackman,
    Hamming,
    Hanning,
    Nuttall,
}

/// The window that a processor uses when a Hamming window is asked for or not.
pub open spec fn spec_window_for(hamming_window: bool) -> Window {
    if hamming_window {
        Window::Hamming
    } else {
        Window::NoWindow
    }
}

/// Picks the Hamming window when asked for, no window otherwise.
pub fn window_for(hamming_window: bool) -> (w: Window)
    ensures
        w == spec_window_for(hamming_window),
        hamming_window ==> w == Window::Hamming,
        !hamming_window ==> w == Window::NoWindow,
{
    if hamming_window {
        Window::Hamming
    } else {
        Window::NoWindow
    }
}

/// Number of bytes that hold one RGB colour per LED.
pub open spec fn render_buffer_len(led_count: nat) -> nat {
    led_count * 3
}

/// A render buffer holds three bytes for every LED, whatever the number of
/// LEDs.
pub proof fn lemma_render_buffer_len(led_count: nat)
    ensures
        render_buffer_len(led_count) == 3 * led_count,
{
}

/// A zeroed buffer with one RGB triple per LED.
pub fn new_render_buffer(led_count: usize) -> (buf: Vec<u8>)
    requires
        led_count * 3 <= usize::MAX,
    ensures
        buf@.len() == render_buffer_len(led_count as nat),
        buf@.len() == 3 * led_count,
        forall|i: int| 0 <= i < buf@.len() ==> buf@[i] == 0u8,
{
    let n: usize = led_count * 3;
    let mut buf: Vec<u8> = Vec::with_capacity(n);
    while buf.len() < n
        invariant
            buf@.len() <= n,
            forall|i: int| 0 <= i < buf@.len() ==> buf@[i] == 0u8,
        decreases n - buf@.len(),
    {
        buf.push(0u8);
    }
    buf
}

/// The complete chunks of `n` consecutive items of `s`, in order; an
/// incomplete tail is not a chunk.
pub open spec fn chunks<T>(s: Seq<T>, n: nat) -> Seq<Seq<T>>
    recommends
        n > 0,
{
    Seq::new(s.len() / n, |k: int| s.subrange(k * n, k * n + n))
}

/// What is left of `s` after its complete chunks of `n` items.
pub open spec fn chunk_remainder<T>(s: Seq<T>, n: nat) -> Seq<T>
    recommends
        n > 0,
{
    s.subrange((s.len() / n) * n as int, s.len() as int)
}

/// The chunks of `s` are its consecutive runs of `n` items, in order: chunk
/// `k` holds items `k * n .. k * n + n`, and there are as many chunks as
/// whole runs fit in `s`.
pub proof fn lemma_chunks_are_consecutive_runs<T>(s: Seq<T>, n: nat, k: int)
    requires
        n > 0,
        0 <= k < s.len() / n,
    ensures
        chunks(s, n).len() == s.len() / n,
        k * n + n <= s.len(),
        chunks(s, n)[k] == s.subrange(k * n, k * n + n),
        chunks(s, n)[k].len() == n,
{
    let q = s.len() as int / n as int;
    assert(k * n + n <= q * n) by (nonlinear_arith)
        requires
            k + 1 <= q,
            n > 0,
    ;
    assert(q * n <= s.len()) by (nonlinear_arith)
        requires
            q == s.len() as int / n as int,
            n > 0,
    ;
}

/// What is left after the chunks is the tail of `s` after its last whole
/// run, shorter than a run.
pub proof fn lemma_chunk_remainder_is_tail<T>(s: Seq<T>, n: nat)
    requires
        n > 0,
    ensures
        chunk_remainder(s, n) == s.subrange(s.len() - (s.len() as int) % (n as int), s.len() as int),
        chunk_remainder(s, n).len() < n,
{
    vstd::arithmetic::div_mod::lemma_fundamental_div_mod(s.len() as int, n as int);
    assert((s.len() as int / n as int) * (n as int) == s.len() - (s.len() as int) % (n as int)) by (nonlinear_arith)
        requires
            s.len() as int == (n as int) * (s.len() as int / n as int) + (s.len() as int) % (n as int),
    ;
}

/// The views of a sequence of vectors.
pub open spec fn vec_views<T>(v: Seq<Vec<T>>) -> Seq<Seq<T>> {
    v.map_values(|f: Vec<T>| f@)
}

/// Splits `samples` into its complete chunks of `size` samples, in order; an
/// incomplete tail is left out.
pub fn complete_chunks<T: Copy>(samples: &[T], size: usize) -> (out: Vec<Vec<T>>)
    requires
        size > 0,
    ensures
        vec_views(out@) == chunks(samples@, size as nat),
        out@.len() == (samples@.len() as int) / (size as int),
        forall|k: int|
            0 <= k < out@.len() ==> #[trigger] out@[k]@ == samples@.subrange(
                k * size,
                k * size + size,
            ),
{
    let len = samples.len();
    let mut out: Vec<Vec<T>> = Vec::new();
    let mut start: usize = 0;
    assert(out@.len() * size == 0) by (nonlinear_arith)
        requires
            out@.len() == 0,
    ;
    while size <= len - start
        invariant
            len == samples@.len(),
            size > 0,
            start <= len,
            start == out@.len() * size,
            forall|k: int|
                0 <= k < out@.len() ==> #[trigger] out@[k]@ == samples@.subrange(
                    k * size,
                    k * size + size,
                ),
        decreases len - start,
    {
        let mut chunk: Vec<T> = Vec::with_capacity(size);
        let mut m: usize = 0;
        while m < size
            invariant
                start + size <= len,
                len == samples@.len(),
                m <= size,
                chunk@ == samples@.subrange(start as int, start + m),
            decreases size - m,
        {
            chunk.push(samples[start + m]);
            m = m + 1;
            assert(chunk@ =~= samples@.subrange(start as int, start + m));
        }
        let ghost k = out@.len();
        out.push(chunk);
        start = start + size;
        assert(start == (k + 1) * size) by (nonlinear_arith)
            requires
                start == k * size + size,
        ;
    }
    let ghost q = out@.len() as int;
    assert(len as int / size as int == q) by (nonlinear_arith)
        requires
            q * size <= len,
            len < q * size + size,
            size > 0,
    {
        vstd::arithmetic::div_mod::lemma_fundamental_div_mod_converse(
            len as int,
            size as int,
            q,
            len - q * size,
        );
    }
    assert(vec_views(out@) =~= chunks(samples@, size as nat));
    out
}

} // verus!
