//! The values that a record carries: one to eight bytes packed little-endian.
use vstd::prelude::*;

verus! {

/// A value of one to eight bytes, held in the smallest integer that fits.
///
/// The variant fixes the width; the payload holds the bytes little-endian, the
/// byte read first being the least significant.
#[derive(Debug, PartialEq, Eq, Copy, Clone)]
pub enum DataType {
    U8(u8),
    U16(u16),
    U24(u32),
    U32(u32),
    U40(u64),
    U48(u64),
    U56(u64),
    U64(u64),
}

/// Weight of the byte at position `i` of a little-endian number: `256^i`.
pub open spec fn byte_weight(i: nat) -> nat
    decreases i,
{
    if i == 0 {
        1
    } else {
        256 * byte_weight((i - 1) as nat)
    }
}

/// The number that `bytes` spell little-endian: the sum of `bytes[i] * 256^i`.
pub open spec fn le_value(bytes: Seq<u8>) -> nat
    decreases bytes.len(),
{
    if bytes.len() == 0 {
        0
    } else {
        le_value(bytes.drop_last()) + bytes.last() as nat * byte_weight((bytes.len() - 1) as nat)
    }
}

impl DataType {
    /// Number of bytes that the value stands for.
    pub open spec fn spec_width(self) -> nat {
        match self {
            DataType::U8(_) => 1,
            DataType::U16(_) => 2,
            DataType::U24(_) => 3,
            DataType::U32(_) => 4,
            DataType::U40(_) => 5,
            DataType::U48(_) => 6,
            DataType::U56(_) => 7,
            DataType::U64(_) => 8,
        }
    }

    /// The payload as a number.
    pub open spec fn spec_value(self) -> nat {
        match self {
            DataType::U8(v) => v as nat,
            DataType::U16(v) => v as nat,
            DataType::U24(v) => v as nat,
            DataType::U32(v) => v as nat,
            DataType::U40(v) => v as nat,
            DataType::U48(v) => v as nat,
            DataType::U56(v) => v as nat,
            DataType::U64(v) => v as nat,
        }
    }

    /// The payload fits the width: every bit above `8 * width` is zero.
    pub open spec fn wf(self) -> bool {
        self.spec_value() < byte_weight(self.spec_width())
    }

    /// The value of `width` bytes (1 to 8) whose payload is `value`.
    pub open spec fn spec_new(width: nat, value: nat) -> DataType {
        if width <= 1 {
            DataType::U8(value as u8)
        } else if width == 2 {
            DataType::U16(value as u16)
        } else if width == 3 {
            DataType::U24(value as u32)
        } else if width == 4 {
            DataType::U32(value as u32)
        } else if width == 5 {
            DataType::U40(value as u64)
        } else if width == 6 {
            DataType::U48(value as u64)
        } else if width == 7 {
            DataType::U56(value as u64)
        } else {
            DataType::U64(value as u64)
        }
    }

    /// The value that one to eight bytes make, the first byte least
    /// significant.
    pub open spec fn pack(bytes: Seq<u8>) -> DataType {
        DataType::spec_new(bytes.len(), le_value(bytes))
    }

    /// Number of bytes that the value stands for, 1 to 8.
    pub fn width(&self) -> (w: u8)
        ensures
            w == self.spec_width(),
    {
        match self {
            DataType::U8(_) => 1,
            DataType::U16(_) => 2,
            DataType::U24(_) => 3,
            DataType::U32(_) => 4,
            DataType::U40(_) => 5,
            DataType::U48(_) => 6,
            DataType::U56(_) => 7,
            DataType::U64(_) => 8,
        }
    }

    /// The payload widened to 64 bits.
    pub fn value(&self) -> (v: u64)
        ensures
            v == self.spec_value(),
    {
        match self {
            DataType::U8(v) => *v as u64,
            DataType::U16(v) => *v as u64,
            DataType::U24(v) => *v as u64,
            DataType::U32(v) => *v as u64,
            DataType::U40(v) => *v,
            DataType::U48(v) => *v,
            DataType::U56(v) => *v,
            DataType::U64(v) => *v,
        }
    }
}

/// The weights of the eight byte positions, as numbers.
pub proof fn lemma_byte_weights()
    ensures
        byte_weight(0) == 1,
        byte_weight(1) == 0x100,
        byte_weight(2) == 0x1_0000,
        byte_weight(3) == 0x100_0000,
        byte_weight(4) == 0x1_0000_0000,
        byte_weight(5) == 0x100_0000_0000,
        byte_weight(6) == 0x1_0000_0000_0000,
        byte_weight(7) == 0x100_0000_0000_0000,
        byte_weight(8) == 0x1_0000_0000_0000_0000,
{
    reveal_with_fuel(byte_weight, 9);
}

/// A value is the one of its width with its payload.
pub proof fn lemma_parts_determine(d: DataType)
    ensures
        d == DataType::spec_new(d.spec_width(), d.spec_value()),
{
}

/// The bytes of a run are numbers below the weight of the run's length.
pub proof fn lemma_le_value_bound(bytes: Seq<u8>)
    ensures
        le_value(bytes) < byte_weight(bytes.len()),
    decreases bytes.len(),
{
    if bytes.len() > 0 {
        lemma_le_value_bound(bytes.drop_last());
        let w = byte_weight((bytes.len() - 1) as nat);
        assert(bytes.last() as nat * w <= 255 * w) by (nonlinear_arith)
            requires
                bytes.last() <= 255,
        ;
    }
}

/// Appends `next_value_u8` to `value` as its next more significant byte.
///
/// A value of eight bytes is full and comes back unchanged. On a narrower one
/// the new byte is or-ed in above the bytes already there, which for a
/// well-formed value is the same as adding `next_value_u8 * 256^width`.
pub fn group_new_data(value: DataType, next_value_u8: u8) -> (grouped: DataType)
    ensures
        value.spec_width() == 8 ==> grouped == value,
        value.spec_width() < 8 ==> grouped.spec_width() == value.spec_width() + 1,
        value.spec_width() < 8 ==> grouped.spec_value() == (value.spec_value() as u64 | ((
        next_value_u8 as u64) << ((8 * value.spec_width()) as u64))),
        value.spec_width() < 8 && value.wf() ==> grouped.spec_value() == value.spec_value()
            + next_value_u8 * byte_weight(value.spec_width()),
        value.wf() ==> grouped.wf(),
{
    proof {
        lemma_byte_weights();
    }
    match value {
        DataType::U8(v) => {
            let b: u16 = next_value_u8 as u16;
            let v: u16 = v as u16;
            assert(v < 0x100 ==> (v | (b << 8)) == v + b * 0x100) by (bit_vector)
                requires
                    b < 0x100,
            ;
            assert((v | (b << 8)) as u64 == (v as u64 | ((b as u64) << 8))) by (bit_vector)
                requires
                    b < 0x100,
            ;
            DataType::U16(v | (b << 8))
        },
        DataType::U16(v) => {
            let b: u32 = next_value_u8 as u32;
            let v: u32 = v as u32;
            assert(v < 0x1_0000 ==> (v | (b << 16)) == v + b * 0x1_0000) by (bit_vector)
                requires
                    b < 0x100,
            ;
            assert((v | (b << 16)) as u64 == (v as u64 | ((b as u64) << 16))) by (bit_vector)
                requires
                    b < 0x100,
            ;
            DataType::U24(v | (b << 16))
        },
        DataType::U24(v) => {
            let b: u32 = next_value_u8 as u32;
            assert(v < 0x100_0000 ==> (v | (b << 24)) == v + b * 0x100_0000) by (bit_vector)
                requires
                    b < 0x100,
            ;
            assert((v | (b << 24)) as u64 == (v as u64 | ((b as u64) << 24))) by (bit_vector)
                requires
                    b < 0x100,
            ;
            DataType::U32(v | (b << 24))
        },
        DataType::U32(v) => {
            let b: u64 = next_value_u8 as u64;
            let v: u64 = v as u64;
            assert(v < 0x1_0000_0000 ==> (v | (b << 32)) == v + b * 0x1_0000_0000)
                by (bit_vector)
                requires
                    b < 0x100,
            ;
            DataType::U40(v | (b << 32))
        },
        DataType::U40(v) => {
            let b: u64 = next_value_u8 as u64;
            assert(v < 0x100_0000_0000 ==> (v | (b << 40)) == v + b * 0x100_0000_0000)
                by (bit_vector)
                requires
                    b < 0x100,
            ;
            DataType::U48(v | (b << 40))
        },
        DataType::U48(v) => {
            let b: u64 = next_value_u8 as u64;
            assert(v < 0x1_0000_0000_0000 ==> (v | (b << 48)) == v + b * 0x1_0000_0000_0000)
                by (bit_vector)
                requires
                    b < 0x100,
            ;
            DataType::U56(v | (b << 48))
        },
        DataType::U56(v) => {
            let b: u64 = next_value_u8 as u64;
            assert(v < 0x100_0000_0000_0000 ==> (v | (b << 56)) == v + b
                * 0x100_0000_0000_0000) by (bit_vector)
                requires
                    b < 0x100,
            ;
            DataType::U64(v | (b << 56))
        },
        DataType::U64(v) => DataType::U64(v),
    }
}

} // verus!
