//! Track identifiers: the base62 form given on the command line and the
//! 128-bit id that the player loads.
use vstd::prelude::*;
use vstd::utf8::encode_utf8;

verus! {

#[verifier::external_type_specification]
#[verifier::external_body]
pub struct ExSpotifyIdError(librespot::core::spotify_id::SpotifyIdError);

/// The value of a base62 digit (`0-9`, `a-z`, `A-Z` in that order), or -1
/// for a byte that is no such digit.
pub open spec fn base62_digit(b: u8) -> int {
    if 48 <= b <= 57 {
        b - 48
    } else if 97 <= b <= 122 {
        b - 97 + 10
    } else if 65 <= b <= 90 {
        b - 65 + 36
    } else {
        -1
    }
}

/// Every byte of `s` is a base62 digit.
pub open spec fn all_base62(s: Seq<u8>) -> bool {
    forall|i: int| 0 <= i < s.len() ==> base62_digit(#[trigger] s[i]) >= 0
}

/// The number that the base62 digits `s` spell, most significant first.
pub open spec fn base62_value(s: Seq<u8>) -> int
    decreases s.len(),
{
    if s.len() == 0 {
        0
    } else {
        base62_value(s.drop_last()) * 62 + base62_digit(s.last())
    }
}

/// Every run of leading base62 digits of `s` spells a number that fits in
/// 128 bits, so that decoding `s` never overflows.
pub open spec fn base62_fits(s: Seq<u8>) -> bool {
    forall|k: int|
        0 <= k <= s.len() && all_base62(s.take(k)) ==> #[trigger] base62_value(s.take(k))
            <= u128::MAX
}

/// A track id that is not written in base62.
#[derive(Clone, Copy, Debug, PartialEq, Eq, Structural)]
pub struct TrackIdError;

/// Calls `SpotifyId::from_base62` of librespot and keeps the id's 128 bits.
/// Claimed of it: it succeeds exactly when every byte of `src` is a base62
/// digit, and the id is then the base62 value of the bytes. Where a run of
/// leading digits does not fit in 128 bits the call overflows, which the
/// `requires` leaves out.
#[verifier::external_body]
fn spotify_id_from_base62(src: &str) -> (r: Result<u128, librespot::core::spotify_id::SpotifyIdError>)
    requires
        base62_fits(encode_utf8(src@)),
    ensures
        r is Ok <==> all_base62(encode_utf8(src@)),
        r matches Ok(id) ==> id == base62_value(encode_utf8(src@)),
{
    librespot::core::spotify_id::SpotifyId::from_base62(src).map(|id| id.id)
}

/// Decodes a track id written in base62.
pub fn decode_track_id(src: &str) -> (r: Result<u128, TrackIdError>)
    requires
        base62_fits(encode_utf8(src@)),
    ensures
        r is Ok <==> all_base62(encode_utf8(src@)),
        r matches Ok(id) ==> id == base62_value(encode_utf8(src@)),
{
    match spotify_id_from_base62(src) {
        Ok(id) => Ok(id),
        Err(_) => Err(TrackIdError),
    }
}

/// Appending a digit shifts the number one base-62 place up and adds the
/// digit: digits are read most significant first.
pub proof fn lemma_base62_append(s: Seq<u8>, b: u8)
    ensures
        base62_value(s.push(b)) == base62_value(s) * 62 + base62_digit(b),
        base62_value(Seq::<u8>::empty()) == 0,
{
    assert(s.push(b).drop_last() =~= s);
}

/// The digits are `0-9`, `a-z`, `A-Z` with values 0 to 61 in that order, and
/// no other byte is a digit.
pub proof fn lemma_base62_digits(b: u8)
    ensures
        48 <= b <= 57 ==> base62_digit(b) == b - 48,
        97 <= b <= 122 ==> base62_digit(b) == b - 87,
        65 <= b <= 90 ==> base62_digit(b) == b - 29,
        !(48 <= b <= 57 || 97 <= b <= 122 || 65 <= b <= 90) ==> base62_digit(b) < 0,
{
}

/// A longer run of leading digits spells a number at least as large.
proof fn lemma_base62_monotone(s: Seq<u8>, j: int, k: int)
    requires
        0 <= j <= k <= s.len(),
        all_base62(s.take(k)),
    ensures
        base62_value(s.take(j)) <= base62_value(s.take(k)),
    decreases k - j,
{
    if j < k {
        assert(s.take(k).drop_last() =~= s.take(k - 1));
        assert(s.take(k).last() == s.take(k)[k - 1]);
        assert(all_base62(s.take(k - 1))) by {
            assert forall|i: int| 0 <= i < k - 1 implies base62_digit(
                #[trigger] s.take(k - 1)[i],
            ) >= 0 by {
                assert(s.take(k - 1)[i] == s.take(k)[i]);
            }
        }
        lemma_base62_monotone(s, j, k - 1);
        assert(base62_value(s.take(k - 1)) >= 0) by {
            lemma_base62_nonneg(s.take(k - 1));
        }
    }
}

/// Digit strings spell non-negative numbers.
proof fn lemma_base62_nonneg(s: Seq<u8>)
    requires
        all_base62(s),
    ensures
        base62_value(s) >= 0,
    decreases s.len(),
{
    if s.len() > 0 {
        assert(all_base62(s.drop_last())) by {
            assert forall|i: int| 0 <= i < s.len() - 1 implies base62_digit(
                #[trigger] s.drop_last()[i],
            ) >= 0 by {
                assert(s.drop_last()[i] == s[i]);
            }
        }
        lemma_base62_nonneg(s.drop_last());
        assert(base62_digit(s[s.len() - 1]) >= 0);
    }
}

/// The value of a base62 digit byte, as a machine integer.
fn digit_value(b: u8) -> (d: Option<u8>)
    ensures
        base62_digit(b) >= 0 ==> d == Some(base62_digit(b) as u8),
        base62_digit(b) < 0 ==> d is None,
{
    if 48 <= b && b <= 57 {
        Some(b - 48)
    } else if 97 <= b && b <= 122 {
        Some(b - 97 + 10)
    } else if 65 <= b && b <= 90 {
        Some(b - 65 + 36)
    } else {
        None
    }
}

/// Extending a run of leading digits by one more digit: the run stays all
/// digits and its value is shifted by one place and increased by the digit.
proof fn lemma_take_one_more_digit(s: Seq<u8>, i: int)
    requires
        0 <= i < s.len(),
        all_base62(s.take(i)),
        base62_digit(s[i]) >= 0,
    ensures
        all_base62(s.take(i + 1)),
        base62_value(s.take(i + 1)) == base62_value(s.take(i)) * 62 + base62_digit(s[i]),
        base62_value(s.take(i)) >= 0,
{
    assert(s.take(i + 1).drop_last() =~= s.take(i));
    assert(s.take(i + 1).last() == s[i]);
    assert forall|j: int| 0 <= j < i + 1 implies base62_digit(#[trigger] s.take(i + 1)[j]) >= 0 by {
        if j < i {
            assert(s.take(i + 1)[j] == s.take(i)[j]);
        }
    }
    lemma_base62_nonneg(s.take(i));
}

/// Where the leading digits end at `i` and spell a number within 128 bits,
/// decoding `s` never overflows.
pub proof fn lemma_fits_when_digits_end(s: Seq<u8>, i: int)
    requires
        0 <= i <= s.len(),
        i < s.len() ==> base62_digit(s[i]) < 0,
        all_base62(s.take(i)),
        base62_value(s.take(i)) <= u128::MAX,
    ensures
        base62_fits(s),
{
    assert forall|k: int| 0 <= k <= s.len() && all_base62(s.take(k)) implies #[trigger] base62_value(
        s.take(k),
    ) <= u128::MAX by {
        if k > i {
            assert(s.take(k)[i] == s[i]);
        }
        lemma_base62_monotone(s, k, i);
    }
}

/// A run of leading digits past 128 bits makes decoding overflow.
pub proof fn lemma_overflow_does_not_fit(s: Seq<u8>, k: int)
    requires
        0 <= k <= s.len(),
        all_base62(s.take(k)),
        base62_value(s.take(k)) > u128::MAX,
    ensures
        !base62_fits(s),
{
}

/// Whether decoding `src` as a track id stays within 128 bits.
pub fn track_id_fits(src: &str) -> (b: bool)
    ensures
        b == base62_fits(encode_utf8(src@)),
{
    let bytes = src.as_bytes();
    let ghost s = bytes@;
    let mut value: u128 = 0;
    let mut i: usize = 0;
    assert(s.take(0) =~= Seq::<u8>::empty());
    while i < bytes.len()
        invariant
            s == bytes@,
            s == encode_utf8(src@),
            i <= s.len(),
            all_base62(s.take(i as int)),
            value == base62_value(s.take(i as int)),
        decreases s.len() - i,
    {
        let b = bytes[i];
        match digit_value(b) {
            None => {
                proof {
                    lemma_fits_when_digits_end(s, i as int);
                }
                return true;
            },
            Some(d) => {
                proof {
                    lemma_take_one_more_digit(s, i as int);
                }
                match value.checked_mul(62) {
                    None => {
                        proof {
                            lemma_overflow_does_not_fit(s, i + 1);
                        }
                        return false;
                    },
                    Some(m) => match m.checked_add(d as u128) {
                        None => {
                            proof {
                                lemma_overflow_does_not_fit(s, i + 1);
                            }
                            return false;
                        },
                        Some(next) => {
                            value = next;
                        },
                    },
                }
            },
        }
        i = i + 1;
    }
    proof {
        lemma_fits_when_digits_end(s, s.len() as int);
    }
    true
}

} // verus!
