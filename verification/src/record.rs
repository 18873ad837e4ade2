//! Records, and the rule that turns one token into one record.
use crate::data::DataType;
use crate::hex::{parse_hex, parse_hex_bytes};
use vstd::prelude::*;
use vstd::slice::slice_subrange;
use vstd::string::StringSliceAdditionalSpecFns;

verus! {

/// One parsed unit of the text.
#[derive(Debug, PartialEq, Eq)]
pub enum Record {
    /// A value and the load address of its first byte.
    Data { addr: u64, value: DataType },
    /// End marker. No token produces it; it is kept for callers that build
    /// record streams of their own.
    EndOfFile,
    /// A token that starts with `//`.
    Comment,
    /// An `@` directive: the load address of the byte that follows.
    NewAddress(u64),
}

/// Why a token is not a record.
#[derive(Debug, PartialEq, Eq, Copy, Clone)]
pub enum ReaderError {
    /// The token is empty.
    InvalidSyntax,
    /// The token is an address directive or a byte whose number is malformed
    /// or out of range.
    BadNumberConversion,
}

/// The record that `token` stands for when the load address is `addr`.
///
/// The first rule that applies decides: an empty token is a syntax error;
/// a token that starts with `//` is a comment; one that starts with `@` is an
/// address directive whose remainder is a base-16 numeral of at most 64 bits;
/// any other token is one byte, a base-16 numeral of at most 255, placed at
/// `addr`.
pub open spec fn parse_token(token: Seq<u8>, addr: u64) -> Result<Record, ReaderError> {
    if token.len() == 0 {
        Err(ReaderError::InvalidSyntax)
    } else if token.len() >= 2 && token[0] == 0x2f && token[1] == 0x2f {
        Ok(Record::Comment)
    } else if token[0] == 0x40 {
        match parse_hex(token.skip(1), u64::MAX as nat) {
            Some(a) => Ok(Record::NewAddress(a as u64)),
            None => Err(ReaderError::BadNumberConversion),
        }
    } else {
        match parse_hex(token, u8::MAX as nat) {
            Some(b) => Ok(Record::Data { addr, value: DataType::U8(b as u8) }),
            None => Err(ReaderError::BadNumberConversion),
        }
    }
}

/// The byte that `token` stands for, if it is a byte token.
pub open spec fn token_byte(token: Seq<u8>) -> Option<u8> {
    match parse_token(token, 0) {
        Ok(Record::Data { addr, value: DataType::U8(b) }) => Some(b),
        _ => None,
    }
}

/// Whether a token is a byte does not depend on the load address, and a byte
/// token is a record of that one byte at the load address.
pub proof fn lemma_token_byte(token: Seq<u8>, addr: u64)
    ensures
        match token_byte(token) {
            Some(b) => parse_token(token, addr) == Ok::<Record, ReaderError>(
                Record::Data { addr, value: DataType::U8(b) },
            ),
            None => !(parse_token(token, addr) matches Ok(Record::Data { .. })),
        },
        !(parse_token(token, addr) matches Ok(Record::EndOfFile)),
{
}

impl Record {
    /// Parses one token, given as text. The rule is [`parse_token`], over the
    /// bytes of `string`.
    pub fn from_string(string: &str, current_addr: u64) -> (parsed: Result<Self, ReaderError>)
        ensures
            parsed == parse_token(string.spec_bytes(), current_addr),
    {
        Record::from_bytes(string.as_bytes(), current_addr)
    }

    /// Parses one token, given as bytes.
    pub fn from_bytes(token: &[u8], current_addr: u64) -> (parsed: Result<Self, ReaderError>)
        ensures
            parsed == parse_token(token@, current_addr),
    {
        if token.len() == 0 {
            return Err(ReaderError::InvalidSyntax);
        }
        if token.len() >= 2 && token[0] == 0x2f && token[1] == 0x2f {
            return Ok(Record::Comment);
        }
        if token[0] == 0x40 {
            let digits = slice_subrange(token, 1, token.len());
            return match parse_hex_bytes(digits, u64::MAX) {
                Some(value) => Ok(Record::NewAddress(value)),
                None => Err(ReaderError::BadNumberConversion),
            };
        }
        match parse_hex_bytes(token, 0xff) {
            Some(value) => Ok(Record::Data { addr: current_addr, value: DataType::U8(value as u8) }),
            None => Err(ReaderError::BadNumberConversion),
        }
    }
}

} // verus!
