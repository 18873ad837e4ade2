//! Base-16 numerals: reading them from bytes and writing them as text.
use vstd::prelude::*;

verus! {

/// The value of one hex digit, upper or lower case; `None` for any other byte.
pub open spec fn hex_digit(b: u8) -> Option<nat> {
    if 0x30 <= b <= 0x39 {
        Some((b - 0x30) as nat)
    } else if 0x41 <= b <= 0x46 {
        Some((b - 0x41 + 10) as nat)
    } else if 0x61 <= b <= 0x66 {
        Some((b - 0x61 + 10) as nat)
    } else {
        None
    }
}

/// Every byte of `s` is a hex digit.
pub open spec fn all_hex_digits(s: Seq<u8>) -> bool {
    forall|i: int| 0 <= i < s.len() ==> hex_digit(#[trigger] s[i]) is Some
}

/// The number that the digits of `s` spell, most significant digit first.
/// A byte that is no digit counts as zero.
pub open spec fn hex_value(s: Seq<u8>) -> nat
    decreases s.len(),
{
    if s.len() == 0 {
        0
    } else {
        16 * hex_value(s.drop_last()) + match hex_digit(s.last()) {
            Some(d) => d,
            None => 0,
        }
    }
}

/// Reads `s` as an unsigned base-16 numeral of at most `max`.
///
/// A numeral is one or more hex digits and nothing else: no sign, no radix
/// prefix, no separators. Leading zeros are allowed, so the length is not
/// bounded, only the value.
pub open spec fn parse_hex(s: Seq<u8>, max: nat) -> Option<nat> {
    if s.len() > 0 && all_hex_digits(s) && hex_value(s) <= max {
        Some(hex_value(s))
    } else {
        None
    }
}

/// A numeral is worth at least as much as each of its prefixes.
pub proof fn lemma_hex_value_prefix(s: Seq<u8>, k: int)
    requires
        0 <= k <= s.len(),
    ensures
        hex_value(s.take(k)) <= hex_value(s),
    decreases s.len(),
{
    if k == s.len() {
        assert(s.take(k) =~= s);
    } else {
        assert(s.drop_last().take(k) =~= s.take(k));
        lemma_hex_value_prefix(s.drop_last(), k);
    }
}

/// The value of the hex digit `b`, if it is one.
pub fn hex_digit_of(b: u8) -> (d: Option<u8>)
    ensures
        match d {
            Some(v) => hex_digit(b) == Some(v as nat),
            None => hex_digit(b) is None,
        },
{
    if 0x30 <= b && b <= 0x39 {
        Some(b - 0x30)
    } else if 0x41 <= b && b <= 0x46 {
        Some(b - 0x41 + 10)
    } else if 0x61 <= b && b <= 0x66 {
        Some(b - 0x61 + 10)
    } else {
        None
    }
}

/// Reads `digits` as an unsigned base-16 numeral of at most `max`.
pub fn parse_hex_bytes(digits: &[u8], max: u64) -> (parsed: Option<u64>)
    ensures
        match parsed {
            Some(v) => parse_hex(digits@, max as nat) == Some(v as nat),
            None => parse_hex(digits@, max as nat) is None,
        },
{
    if digits.len() == 0 {
        return None;
    }
    let mut acc: u64 = 0;
    let mut i: usize = 0;
    while i < digits.len()
        invariant
            i <= digits.len(),
            all_hex_digits(digits@.take(i as int)),
            acc == hex_value(digits@.take(i as int)),
            acc <= max,
        decreases digits.len() - i,
    {
        let ghost before = digits@.take(i as int);
        let ghost upto = digits@.take(i + 1);
        assert(upto.drop_last() =~= before);
        match hex_digit_of(digits[i]) {
            None => {
                return None;
            },
            Some(d) => {
                let d: u64 = d as u64;
                if d > max || acc > (max - d) / 16 {
                    proof {
                        lemma_hex_value_prefix(digits@, i + 1);
                    }
                    return None;
                }
                acc = acc * 16 + d;
                assert forall|j: int| 0 <= j < upto.len() implies hex_digit(
                    #[trigger] upto[j],
                ) is Some by {
                    if j < i {
                        assert(upto[j] == before[j]);
                    }
                }
            },
        }
        i += 1;
    }
    assert(digits@.take(i as int) =~= digits@);
    Some(acc)
}

} // verus!
