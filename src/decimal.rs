//! Decimal text of unsigned integers: how tags, lengths and checksums are
//! written on the wire, and how they are read back.
use vstd::prelude::*;

verus! {

/// The ASCII code of the digit zero.
pub const ZERO: u8 = 48;

pub open spec fn is_digit(b: u8) -> bool {
    48 <= b <= 57
}

pub open spec fn all_digits(s: Seq<u8>) -> bool {
    forall|i: int| 0 <= i < s.len() ==> is_digit(#[trigger] s[i])
}

/// The decimal text of `n`: no sign, no leading zeros, "0" for zero.
pub open spec fn decimal(n: nat) -> Seq<u8>
    decreases n,
{
    if n < 10 {
        seq![(n + 48) as u8]
    } else {
        decimal(n / 10).push((n % 10 + 48) as u8)
    }
}

/// The number that a string of digits denotes (the empty string denotes 0).
pub open spec fn digits_value(s: Seq<u8>) -> nat
    decreases s.len(),
{
    if s.len() == 0 {
        0
    } else {
        digits_value(s.drop_last()) * 10 + (s.last() - 48) as nat
    }
}

/// Reading a `u32` from text: one or more ASCII digits whose value fits.
pub open spec fn parse_u32_spec(s: Seq<u8>) -> Option<u32> {
    if s.len() > 0 && all_digits(s) && digits_value(s) <= u32::MAX {
        Some(digits_value(s) as u32)
    } else {
        None
    }
}

/// Exactly three digits, zero-padded, for a value under 1000.
pub open spec fn three_digits(n: nat) -> Seq<u8> {
    seq![(n / 100 + 48) as u8, ((n / 10) % 10 + 48) as u8, (n % 10 + 48) as u8]
}

pub proof fn lemma_decimal(n: nat)
    ensures
        decimal(n).len() >= 1,
        all_digits(decimal(n)),
        digits_value(decimal(n)) == n,
        n < 10 ==> decimal(n).len() == 1,
    decreases n,
{
    if n < 10 {
        assert(decimal(n).drop_last() =~= Seq::<u8>::empty());
        assert(digits_value(Seq::<u8>::empty()) == 0);
    } else {
        lemma_decimal(n / 10);
        let d = decimal(n / 10);
        assert(decimal(n).drop_last() =~= d);
        assert(decimal(n).last() == (n % 10 + 48) as u8);
        assert((n / 10) * 10 + n % 10 == n) by (nonlinear_arith);
        assert forall|i: int| 0 <= i < decimal(n).len() implies is_digit(#[trigger] decimal(n)[i]) by {
            if i < d.len() {
                assert(decimal(n)[i] == d[i]);
            }
        }
    }
}

pub proof fn lemma_decimal_len_u32(n: nat)
    requires
        n <= u32::MAX,
    ensures
        decimal(n).len() <= 10,
{
    reveal_with_fuel(pow10, 11);
    lemma_decimal_len_bound(n, 10, 10000000000);
}

proof fn lemma_decimal_len_bound(n: nat, k: nat, p: nat)
    requires
        n < p,
        k >= 1,
        p == pow10(k),
    ensures
        decimal(n).len() <= k,
    decreases k,
{
    lemma_decimal(n);
    if n >= 10 {
        if k == 1 {
            assert(p == 10);
        } else {
            assert(p == 10 * pow10((k - 1) as nat));
            assert(n / 10 < pow10((k - 1) as nat)) by (nonlinear_arith)
                requires
                    n < p,
                    p == 10 * pow10((k - 1) as nat),
            ;
            lemma_decimal_len_bound(n / 10, (k - 1) as nat, pow10((k - 1) as nat));
        }
    }
}

pub open spec fn pow10(k: nat) -> nat
    decreases k,
{
    if k == 0 {
        1
    } else {
        10 * pow10((k - 1) as nat)
    }
}

pub proof fn lemma_parse_decimal(n: u32)
    ensures
        parse_u32_spec(decimal(n as nat)) == Some(n),
{
    lemma_decimal(n as nat);
}

pub proof fn lemma_three_digits(n: nat)
    requires
        n < 1000,
    ensures
        three_digits(n).len() == 3,
        all_digits(three_digits(n)),
        digits_value(three_digits(n)) == n,
        parse_u32_spec(three_digits(n)) == Some(n as u32),
{
    let s = three_digits(n);
    let a = (n / 100 + 48) as u8;
    let b = ((n / 10) % 10 + 48) as u8;
    let c = (n % 10 + 48) as u8;
    assert(s =~= seq![a, b, c]);
    assert(s.drop_last() =~= seq![a, b]);
    assert(s.drop_last().drop_last() =~= seq![a]);
    assert(s.drop_last().drop_last().drop_last() =~= Seq::<u8>::empty());
    assert(digits_value(Seq::<u8>::empty()) == 0);
    assert(digits_value(seq![a]) == n / 100);
    assert(digits_value(seq![a, b]) == (n / 100) * 10 + (n / 10) % 10);
    assert((n / 100) * 10 + (n / 10) % 10 == n / 10) by (nonlinear_arith);
    assert((n / 10) * 10 + n % 10 == n) by (nonlinear_arith);
}

/// Relies on itoa::Buffer::format: it writes the decimal text of `n`, with
/// no sign and no leading zeros.
#[verifier::external_body]
pub(crate) fn decimal_text(n: u64) -> (r: Vec<u8>)
    ensures
        r@ == decimal(n as nat),
{
    itoa::Buffer::new().format(n).as_bytes().to_vec()
}

/// Reads an unsigned 32-bit number written in decimal. Every byte must be an
/// ASCII digit (no sign, no blanks), and there must be at least one.
pub fn parse_u32(s: &[u8]) -> (r: Option<u32>)
    ensures
        r == parse_u32_spec(s@),
{
    if s.len() == 0 {
        return None;
    }
    let cap: u64 = 4294967296;
    let mut acc: u64 = 0;
    let mut i: usize = 0;
    while i < s.len()
        invariant
            0 <= i <= s@.len(),
            all_digits(s@.subrange(0, i as int)),
            acc as nat == if digits_value(s@.subrange(0, i as int)) < cap {
                digits_value(s@.subrange(0, i as int))
            } else {
                cap as nat
            },
            cap == 4294967296,
        decreases s@.len() - i,
    {
        let b = s[i];
        if b < ZERO || b > 57 {
            assert(!all_digits(s@)) by {
                assert(!is_digit(s@[i as int]));
            }
            return None;
        }
        let d: u64 = (b - ZERO) as u64;
        let ghost prev = digits_value(s@.subrange(0, i as int));
        assert(s@.subrange(0, i + 1).drop_last() =~= s@.subrange(0, i as int));
        assert(digits_value(s@.subrange(0, i + 1)) == prev * 10 + d);
        if acc >= cap {
            assert(prev * 10 + d >= cap) by (nonlinear_arith)
                requires prev >= cap;
        } else {
            acc = acc * 10 + d;
            if acc >= cap {
                acc = cap;
            }
        }
        i = i + 1;
        assert(all_digits(s@.subrange(0, i as int))) by {
            assert forall|j: int| 0 <= j < i implies is_digit(#[trigger] s@.subrange(0, i as int)[j]) by {
                if j < i - 1 {
                    assert(s@.subrange(0, i as int)[j] == s@.subrange(0, i - 1)[j]);
                }
            }
        }
    }
    assert(s@.subrange(0, s@.len() as int) =~= s@);
    if acc >= cap {
        None
    } else {
        Some(acc as u32)
    }
}

/// Writes a value under 1000 as exactly three digits, zero-padded.
pub fn three_digit_text(n: u32) -> (r: Vec<u8>)
    requires
        n < 1000,
    ensures
        r@ == three_digits(n as nat),
{
    let mut r: Vec<u8> = Vec::new();
    r.push((n / 100) as u8 + ZERO);
    r.push(((n / 10) % 10) as u8 + ZERO);
    r.push((n % 10) as u8 + ZERO);
    assert(r@ =~= three_digits(n as nat));
    r
}

} // verus!
