//! Numbers and bytes written in hex, as requests carry them.

use vstd::prelude::*;
use vstd::slice::slice_subrange;

verus! {

/// The value of a hex digit, in either case.
pub open spec fn digit_value(c: u8) -> Option<nat> {
    if 0x30 <= c <= 0x39 {
        Some((c - 0x30) as nat)
    } else if 0x61 <= c <= 0x66 {
        Some((c - 0x61 + 10) as nat)
    } else if 0x41 <= c <= 0x46 {
        Some((c - 0x41 + 10) as nat)
    } else {
        None
    }
}

/// Whether every byte of `s` is a hex digit.
pub open spec fn all_digits(s: Seq<u8>) -> bool {
    forall|i: int| 0 <= i < s.len() ==> digit_value(#[trigger] s[i]) is Some
}

/// The number that the hex digits `s` spell.
pub open spec fn digits_value(s: Seq<u8>) -> nat
    decreases s.len(),
{
    if s.len() == 0 {
        0
    } else {
        digits_value(s.drop_last()) * 16 + digit_value(s.last()).unwrap()
    }
}

/// Whether `text` begins with `0x`.
pub open spec fn has_prefix(text: Seq<u8>) -> bool {
    text.len() >= 2 && text[0] == 0x30 && text[1] == 0x78
}

/// The number that `text` spells: `0x`, then at least one hex digit.
pub open spec fn quantity(text: Seq<u8>) -> Option<nat> {
    if has_prefix(text) && text.len() > 2 && all_digits(text.subrange(2, text.len() as int)) {
        Some(digits_value(text.subrange(2, text.len() as int)))
    } else {
        None
    }
}

/// The bytes that `text` spells: `0x`, then two hex digits for each byte.
pub open spec fn hex_bytes(text: Seq<u8>) -> Option<Seq<u8>> {
    if has_prefix(text) && text.len() % 2 == 0 && all_digits(text.subrange(2, text.len() as int)) {
        Some(
            Seq::new(
                ((text.len() - 2) / 2) as nat,
                |i: int|
                    (digit_value(text[2 + 2 * i]).unwrap() * 16 + digit_value(
                        text[3 + 2 * i],
                    ).unwrap()) as u8,
            ),
        )
    } else {
        None
    }
}

/// The value of the hex digit `c`, if it is one.
pub fn digit(c: u8) -> (res: Option<u8>)
    ensures
        res is Some <==> digit_value(c) is Some,
        res matches Some(v) ==> v == digit_value(c).unwrap() && v < 16,
{
    if 0x30 <= c && c <= 0x39 {
        Some(c - 0x30)
    } else if 0x61 <= c && c <= 0x66 {
        Some(c - 0x61 + 10)
    } else if 0x41 <= c && c <= 0x46 {
        Some(c - 0x41 + 10)
    } else {
        None
    }
}

/// The value of digits grows with every digit that follows.
pub proof fn lemma_digits_value_grows(s: Seq<u8>, n: int)
    requires
        0 <= n <= s.len(),
    ensures
        digits_value(s.subrange(0, n)) <= digits_value(s),
    decreases s.len() - n,
{
    if n < s.len() {
        lemma_digits_value_grows(s, n + 1);
        assert(s.subrange(0, n + 1).drop_last() =~= s.subrange(0, n));
    } else {
        assert(s.subrange(0, n) =~= s);
    }
}

/// Reads a number written as `0x` and hex digits, where 64 bits hold it.
#[verifier::loop_isolation(false)]
pub fn parse_quantity(text: &[u8]) -> (res: Option<u64>)
    ensures
        res is Some <==> quantity(text@) is Some && quantity(text@).unwrap() <= u64::MAX,
        res matches Some(n) ==> n == quantity(text@).unwrap(),
{
    if text.len() <= 2 || text[0] != 0x30 || text[1] != 0x78 {
        return None;
    }
    let digits = slice_subrange(text, 2, text.len());
    let mut value: u64 = 0;
    let mut i: usize = 0;
    assert(digits@.subrange(0, 0) =~= Seq::<u8>::empty());
    while i < digits.len()
        invariant
            i <= digits@.len(),
            all_digits(digits@.subrange(0, i as int)),
            value == digits_value(digits@.subrange(0, i as int)),
        decreases digits@.len() - i,
    {
        let ghost before = digits@.subrange(0, i as int);
        let ghost next = digits@.subrange(0, i + 1);
        assert(next.drop_last() =~= before);
        assert(next.last() == digits@[i as int]);
        let d = match digit(digits[i]) {
            Some(d) => d,
            None => {
                assert(digit_value(digits@[i as int]) is None);
                return None;
            },
        };
        assert(all_digits(next)) by {
            assert forall|j: int| 0 <= j < next.len() implies digit_value(#[trigger] next[j])
                is Some by {
                if j < i {
                    assert(next[j] == before[j]);
                }
            }
        }
        assert(digits_value(next) == value * 16 + d);
        if value > (u64::MAX - d as u64) / 16 {
            proof {
                lemma_digits_value_grows(digits@, i + 1);
                assert(value * 16 + d > u64::MAX);
            }
            return None;
        }
        value = value * 16 + d as u64;
        i += 1;
    }
    assert(digits@.subrange(0, i as int) =~= digits@);
    Some(value)
}

/// Reads bytes written as `0x` and two hex digits for each.
#[verifier::loop_isolation(false)]
pub fn parse_hex_bytes(text: &[u8]) -> (res: Option<Vec<u8>>)
    ensures
        res is Some <==> hex_bytes(text@) is Some,
        res matches Some(bytes) ==> bytes@ == hex_bytes(text@).unwrap(),
{
    if text.len() < 2 || text[0] != 0x30 || text[1] != 0x78 || text.len() % 2 != 0 {
        return None;
    }
    let count = (text.len() - 2) / 2;
    let ghost digits = text@.subrange(2, text@.len() as int);
    let mut out: Vec<u8> = Vec::new();
    let mut i: usize = 0;
    while i < count
        invariant
            i <= count,
            2 + 2 * count == text@.len(),
            digits == text@.subrange(2, text@.len() as int),
            out@.len() == i,
            forall|j: int| 0 <= j < 2 * i ==> digit_value(#[trigger] digits[j]) is Some,
            forall|k: int|
                0 <= k < i ==> (#[trigger] out@[k]) == (digit_value(text@[2 + 2 * k]).unwrap() * 16
                    + digit_value(text@[3 + 2 * k]).unwrap()) as u8,
        decreases count - i,
    {
        let hi = match digit(text[2 + 2 * i]) {
            Some(d) => d,
            None => {
                assert(digit_value(digits[2 * i]) is None);
                return None;
            },
        };
        let lo = match digit(text[3 + 2 * i]) {
            Some(d) => d,
            None => {
                assert(digit_value(digits[2 * i + 1]) is None);
                return None;
            },
        };
        assert(digits[2 * i] == text@[2 + 2 * i]);
        assert(digits[2 * i + 1] == text@[3 + 2 * i]);
        out.push(hi * 16 + lo);
        i += 1;
    }
    assert(all_digits(digits));
    assert(out@ =~= hex_bytes(text@).unwrap());
    Some(out)
}

} // verus!
