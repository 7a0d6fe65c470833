//! Decisions of the player program: which audio device to use, how much of a
//! device's configuration list to show, when to let the audio queue drain,
//! and which track to play.
use vstd::prelude::*;
use vstd::utf8::encode_utf8;

verus! {

/// `needle` occurs in `hay` at some position.
pub open spec fn has_substring(hay: Seq<u8>, needle: Seq<u8>) -> bool {
    exists|i: int|
        0 <= i && i + needle.len() <= hay.len() && #[trigger] hay.subrange(i, i + needle.len())
            == needle
}

/// The device name `name` contains `target`, compared on their UTF-8 bytes.
pub open spec fn name_contains(name: Seq<char>, target: Seq<char>) -> bool {
    has_substring(encode_utf8(name), encode_utf8(target))
}

/// `needle` occurs in `hay` exactly when some run of `hay`, starting at a
/// position where `needle` fits, equals `needle`: in particular wherever
/// `hay` is `a + needle + b`.
pub proof fn lemma_substring_occurrence(a: Seq<u8>, needle: Seq<u8>, b: Seq<u8>)
    ensures
        has_substring(a + needle + b, needle),
{
    let h = a + needle + b;
    assert(h.subrange(a.len() as int, (a.len() + needle.len()) as int) =~= needle);
}

/// Whether `needle` occurs in `hay` at position `i`.
fn matches_at(hay: &[u8], needle: &[u8], i: usize) -> (b: bool)
    requires
        i + needle@.len() <= hay@.len(),
    ensures
        b == (hay@.subrange(i as int, i + needle@.len()) == needle@),
{
    let hay_len = hay.len();
    let mut k: usize = 0;
    while k < needle.len()
        invariant
            i + needle@.len() <= hay@.len(),
            hay_len == hay@.len(),
            k <= needle@.len(),
            forall|j: int| 0 <= j < k ==> hay@[i + j] == needle@[j],
        decreases needle@.len() - k,
    {
        if hay[i + k] != needle[k] {
            assert(hay@.subrange(i as int, i + needle@.len())[k as int] != needle@[k as int]);
            return false;
        }
        k = k + 1;
    }
    assert(hay@.subrange(i as int, i + needle@.len()) =~= needle@);
    true
}

/// Whether `needle` occurs in `hay`.
pub fn contains_bytes(hay: &[u8], needle: &[u8]) -> (b: bool)
    ensures
        b == has_substring(hay@, needle@),
{
    if needle.len() > hay.len() {
        return false;
    }
    let last = hay.len() - needle.len();
    let mut i: usize = 0;
    loop
        invariant
            i <= last,
            last + needle@.len() == hay@.len(),
            forall|j: int|
                0 <= j < i ==> #[trigger] hay@.subrange(j, j + needle@.len()) != needle@,
        decreases last - i,
    {
        if matches_at(hay, needle, i) {
            return true;
        }
        if i == last {
            return false;
        }
        i = i + 1;
    }
}

/// Index of the first device whose name contains `target`, if any.
pub fn select_device_index(names: &Vec<String>, target: &str) -> (r: Option<usize>)
    ensures
        match r {
            Some(i) => {
                &&& i < names@.len()
                &&& name_contains(names@[i as int]@, target@)
                &&& forall|j: int| 0 <= j < i ==> !name_contains(#[trigger] names@[j]@, target@)
            },
            None => forall|j: int|
                0 <= j < names@.len() ==> !name_contains(#[trigger] names@[j]@, target@),
        },
{
    let needle = target.as_bytes();
    let mut i: usize = 0;
    while i < names.len()
        invariant
            i <= names@.len(),
            needle@ == encode_utf8(target@),
            forall|j: int| 0 <= j < i ==> !name_contains(#[trigger] names@[j]@, target@),
        decreases names@.len() - i,
    {
        let hay = names[i].as_str().as_bytes();
        if contains_bytes(hay, needle) {
            return Some(i);
        }
        i = i + 1;
    }
    None
}

/// Configurations with more channels than this end the listing of a device.
pub const MAX_LISTED_CHANNELS: u16 = 5;

/// How many of a device's configurations, given by their channel counts, are
/// listed: those before the first one with more than `MAX_LISTED_CHANNELS`
/// channels. When fewer than all are listed the listing ends with an
/// ellipsis.
pub fn listed_config_count(channels: &[u16]) -> (n: usize)
    ensures
        n <= channels@.len(),
        forall|i: int| 0 <= i < n ==> channels@[i] <= MAX_LISTED_CHANNELS,
        n < channels@.len() ==> channels@[n as int] > MAX_LISTED_CHANNELS,
{
    let mut i: usize = 0;
    while i < channels.len()
        invariant
            i <= channels@.len(),
            forall|j: int| 0 <= j < i ==> channels@[j] <= MAX_LISTED_CHANNELS,
        decreases channels@.len() - i,
    {
        if channels[i] > MAX_LISTED_CHANNELS {
            return i;
        }
        i = i + 1;
    }
    i
}

/// Chunks that may wait in the audio output queue before feeding pauses.
pub const MAX_QUEUED_CHUNKS: usize = 26;

/// Whether feeding must wait for the audio output to drain.
pub fn must_wait_for_output(queued: usize) -> (b: bool)
    ensures
        b == (queued > MAX_QUEUED_CHUNKS),
{
    queued > MAX_QUEUED_CHUNKS
}

/// The track to play: the single argument after the program name.
pub fn track_argument(args: &Vec<String>) -> (r: Option<&String>)
    ensures
        args@.len() == 2 ==> r == Some(&args@[1]),
        args@.len() != 2 ==> r is None,
{
    if args.len() != 2 {
        None
    } else {
        Some(&args[1])
    }
}

} // verus!
