//! Records and errors as diagnostic text.
use crate::data::DataType;
use crate::record::{ReaderError, Record};
use vstd::prelude::*;

verus! {

/// The sixteen hex digits, upper case.
pub open spec fn upper_hex_digits() -> Seq<char> {
    seq!['0', '1', '2', '3', '4', '5', '6', '7', '8', '9', 'A', 'B', 'C', 'D', 'E', 'F']
}

/// `n` in upper-case base 16, padded with zeros on the left to at least
/// `min_digits` digits, and to at least one.
pub open spec fn upper_hex(n: nat, min_digits: nat) -> Seq<char>
    decreases n, min_digits,
{
    if n < 16 && min_digits <= 1 {
        seq![upper_hex_digits()[n as int]]
    } else {
        upper_hex(
            n / 16,
            if min_digits > 0 {
                (min_digits - 1) as nat
            } else {
                0
            },
        ).push(upper_hex_digits()[(n % 16) as int])
    }
}

/// An address as text: `0x` and at least eight upper-case hex digits.
pub open spec fn address_text(addr: u64) -> Seq<char> {
    "0x"@ + upper_hex(addr as nat, 8)
}

impl Record {
    /// The record as text.
    ///
    /// A value is written as a number of at least two hex digits: the digits
    /// show how large it is, not how many bytes it packs.
    pub open spec fn spec_text(self) -> Seq<char> {
        match self {
            Record::EndOfFile => "EOF"@,
            Record::Comment => "comment"@,
            Record::NewAddress(addr) => "new address: "@ + address_text(addr),
            Record::Data { addr, value } => address_text(addr) + ": "@ + upper_hex(
                value.spec_value(),
                2,
            ),
        }
    }

    /// Renders the record for diagnostics.
    pub fn to_string(&self) -> (text: String)
        ensures
            text@ == self.spec_text(),
    {
        match self {
            Record::EndOfFile => String::from_str("EOF"),
            Record::Comment => String::from_str("comment"),
            Record::NewAddress(addr) => {
                let mut text = String::from_str("new address: ");
                push_address(&mut text, *addr);
                text
            },
            Record::Data { addr, value } => {
                let mut text = String::new();
                push_address(&mut text, *addr);
                text.append(": ");
                push_upper_hex(&mut text, value.value(), 2);
                text
            },
        }
    }
}

impl ReaderError {
    /// The error as text.
    pub open spec fn spec_text(self) -> Seq<char> {
        match self {
            ReaderError::InvalidSyntax => "invalid format"@,
            ReaderError::BadNumberConversion => "cant convert string to number"@,
        }
    }

    /// Renders the error for diagnostics.
    pub fn to_string(&self) -> (text: String)
        ensures
            text@ == self.spec_text(),
    {
        match self {
            ReaderError::InvalidSyntax => String::from_str("invalid format"),
            ReaderError::BadNumberConversion => String::from_str("cant convert string to number"),
        }
    }
}

/// Appends an address to `out`.
fn push_address(out: &mut String, addr: u64)
    ensures
        final(out)@ == old(out)@ + address_text(addr),
{
    out.append("0x");
    push_upper_hex(out, addr, 8);
}

/// Appends `n` to `out` in upper-case base 16, with at least `min_digits`
/// digits.
fn push_upper_hex(out: &mut String, n: u64, min_digits: u8)
    ensures
        final(out)@ == old(out)@ + upper_hex(n as nat, min_digits as nat),
    decreases n, min_digits,
{
    if n >= 16 || min_digits > 1 {
        let fewer: u8 = if min_digits > 0 {
            min_digits - 1
        } else {
            0
        };
        push_upper_hex(out, n / 16, fewer);
    }
    out.append(upper_hex_digit((n % 16) as u8));
}

/// The hex digit of value `d`, upper case, as a string of one character.
fn upper_hex_digit(d: u8) -> (digit: &'static str)
    requires
        d < 16,
    ensures
        digit@ == seq![upper_hex_digits()[d as int]],
{
    proof {
        reveal_strlit("0");
        reveal_strlit("1");
        reveal_strlit("2");
        reveal_strlit("3");
        reveal_strlit("4");
        reveal_strlit("5");
        reveal_strlit("6");
        reveal_strlit("7");
        reveal_strlit("8");
        reveal_strlit("9");
        reveal_strlit("A");
        reveal_strlit("B");
        reveal_strlit("C");
        reveal_strlit("D");
        reveal_strlit("E");
        reveal_strlit("F");
    }
    let digit = match d {
        0 => "0",
        1 => "1",
        2 => "2",
        3 => "3",
        4 => "4",
        5 => "5",
        6 => "6",
        7 => "7",
        8 => "8",
        9 => "9",
        10 => "A",
        11 => "B",
        12 => "C",
        13 => "D",
        14 => "E",
        _ => "F",
    };
    digit
}

} // verus!
