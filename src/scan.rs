//! Searching bytes for a delimiter, and the modular byte sum that serves as
//! checksum.
use vstd::prelude::*;

verus! {

/// The index of the first occurrence of `b` in `s`, if any.
pub open spec fn first_of(s: Seq<u8>, b: u8) -> Option<nat>
    decreases s.len(),
{
    if s.len() == 0 {
        None
    } else {
        match first_of(s.drop_last(), b) {
            Some(i) => Some(i),
            None => if s.last() == b {
                Some((s.len() - 1) as nat)
            } else {
                None
            },
        }
    }
}

/// `i` is where `b` first occurs in `s`.
pub open spec fn is_first_at(s: Seq<u8>, b: u8, i: int) -> bool {
    &&& 0 <= i < s.len()
    &&& s[i] == b
    &&& forall|j: int| 0 <= j < i ==> s[j] != b
}

pub proof fn lemma_first_of(s: Seq<u8>, b: u8)
    ensures
        match first_of(s, b) {
            Some(i) => is_first_at(s, b, i as int),
            None => forall|j: int| 0 <= j < s.len() ==> s[j] != b,
        },
    decreases s.len(),
{
    if s.len() > 0 {
        let p = s.drop_last();
        lemma_first_of(p, b);
        assert forall|j: int| 0 <= j < s.len() - 1 implies s[j] == #[trigger] p[j] by {}
        match first_of(p, b) {
            Some(i) => {
                assert(first_of(s, b) == Some(i));
                assert forall|j: int| 0 <= j < i implies s[j] != b by {
                    assert(p[j] != b);
                }
            },
            None => {
                assert forall|j: int| 0 <= j < s.len() - 1 implies s[j] != b by {
                    assert(p[j] != b);
                }
            },
        }
    }
}

/// The first occurrence is unique: where one is known, `first_of` finds it.
pub proof fn lemma_first_of_at(s: Seq<u8>, b: u8, i: int)
    requires
        is_first_at(s, b, i),
    ensures
        first_of(s, b) == Some(i as nat),
{
    lemma_first_of(s, b);
    match first_of(s, b) {
        Some(k) => {
            if (k as int) < i {
                assert(s[k as int] != b);
            } else if (k as int) > i {
                assert(s[i] != b);
            }
        },
        None => {
            assert(s[i] != b);
        },
    }
}

/// `b` does not occur in `s`.
pub open spec fn lacks(s: Seq<u8>, b: u8) -> bool {
    forall|j: int| 0 <= j < s.len() ==> s[j] != b
}

pub proof fn lemma_first_of_none(s: Seq<u8>, b: u8)
    requires
        lacks(s, b),
    ensures
        first_of(s, b) is None,
{
    lemma_first_of(s, b);
    if let Some(k) = first_of(s, b) {
        assert(s[k as int] == b);
    }
}

/// Relies on memchr::memchr: the index of the first occurrence of `needle`
/// in `haystack`, or `None` where it does not occur.
#[verifier::external_body]
pub(crate) fn find_byte(needle: u8, haystack: &[u8]) -> (r: Option<usize>)
    ensures
        match r {
            Some(i) => is_first_at(haystack@, needle, i as int),
            None => lacks(haystack@, needle),
        },
{
    memchr::memchr(needle, haystack)
}

/// Finds the first occurrence of `needle`, as `first_of` states it.
pub fn find_first(needle: u8, haystack: &[u8]) -> (r: Option<usize>)
    ensures
        match r {
            Some(i) => first_of(haystack@, needle) == Some(i as nat),
            None => first_of(haystack@, needle) is None,
        },
{
    let r = find_byte(needle, haystack);
    proof {
        match r {
            Some(i) => lemma_first_of_at(haystack@, needle, i as int),
            None => lemma_first_of_none(haystack@, needle),
        }
    }
    r
}

/// The sum of all bytes of `s`.
pub open spec fn byte_sum(s: Seq<u8>) -> nat
    decreases s.len(),
{
    if s.len() == 0 {
        0
    } else {
        byte_sum(s.drop_last()) + s.last() as nat
    }
}

/// The checksum of `s`: the sum of its bytes modulo 256.
pub open spec fn checksum_of(s: Seq<u8>) -> nat {
    byte_sum(s) % 256
}

/// Computes the sum of the bytes of `s` modulo 256.
pub fn checksum(s: &[u8]) -> (r: u32)
    ensures
        r as nat == checksum_of(s@),
        r < 256,
{
    let mut acc: u32 = 0;
    let mut i: usize = 0;
    while i < s.len()
        invariant
            0 <= i <= s@.len(),
            acc as nat == byte_sum(s@.subrange(0, i as int)) % 256,
        decreases s@.len() - i,
    {
        let ghost prev = byte_sum(s@.subrange(0, i as int));
        assert(s@.subrange(0, i + 1).drop_last() =~= s@.subrange(0, i as int));
        let b = s[i];
        assert(byte_sum(s@.subrange(0, i + 1)) == prev + b);
        proof {
            vstd::arithmetic::div_mod::lemma_add_mod_noop(prev as int, b as int, 256);
            vstd::arithmetic::div_mod::lemma_mod_twice(b as int, 256);
        }
        acc = (acc + b as u32) % 256;
        i = i + 1;
    }
    assert(s@.subrange(0, s@.len() as int) =~= s@);
    acc
}

} // verus!
