//! Decoding of a 16-bit instruction word into its nibble-aligned fields.

use vstd::prelude::*;

verus! {

/// Operation family: the high nibble of the instruction word.
pub open spec fn nib1(op: u16) -> u16 {
    (op >> 12) & 0xF
}

/// First register index `x`: the second nibble.
pub open spec fn nib2(op: u16) -> u16 {
    (op >> 8) & 0xF
}

/// Second register index `y`: the third nibble.
pub open spec fn nib3(op: u16) -> u16 {
    (op >> 4) & 0xF
}

/// Four-bit immediate `n`: the low nibble.
pub open spec fn nib4(op: u16) -> u16 {
    op & 0xF
}

/// Eight-bit immediate `nn`: the low byte.
pub open spec fn imm8(op: u16) -> u8 {
    (op & 0xFF) as u8
}

/// Twelve-bit address `nnn`: the low three nibbles.
pub open spec fn addr12(op: u16) -> u16 {
    op & 0xFFF
}

/// The structured view of one 2-byte instruction: the operation family
/// nibble, two register indices, and the 4-, 8- and 12-bit immediates.
pub struct OpCode {
    pub op: u8,
    pub x: u8,
    pub y: u8,
    pub n: u8,
    pub nn: u8,
    pub nnn: u16,
}

impl OpCode {
    /// Decode the two instruction bytes (big-endian order: `b1` first)
    /// into the fields of the combined word.
    pub fn new(b1: u8, b2: u8) -> (r: OpCode)
        ensures
            ({
                let w = ((b1 as u16) << 8) | (b2 as u16);
                &&& r.op as u16 == nib1(w)
                &&& r.x as u16 == nib2(w)
                &&& r.y as u16 == nib3(w)
                &&& r.n as u16 == nib4(w)
                &&& r.nn == imm8(w)
                &&& r.nnn == addr12(w)
            }),
            r.op < 16,
            r.x < 16,
            r.y < 16,
            r.n < 16,
            r.nnn < 0x1000,
    {
        proof {
            let w = ((b1 as u16) << 8) | (b2 as u16);
            assert(((b1 >> 4) & 0xF) as u16 == (w >> 12) & 0xF && (b1 & 0xF) as u16 == (w >> 8)
                & 0xF && ((b2 >> 4) & 0xF) as u16 == (w >> 4) & 0xF && (b2 & 0xF) as u16 == w & 0xF
                && b2 == (w & 0xFF) as u8 && (((b1 & 0xF) as u16) << 8 | b2 as u16) == w & 0xFFF)
                by (bit_vector)
                requires
                    w == ((b1 as u16) << 8) | (b2 as u16),
            ;
            assert((b1 >> 4) & 0xF < 16 && b1 & 0xF < 16 && (b2 >> 4) & 0xF < 16 && b2 & 0xF < 16)
                by (bit_vector);
            assert((((b1 & 0xF) as u16) << 8 | b2 as u16) < 0x1000) by (bit_vector);
        }
        OpCode {
            op: (b1 >> 4) & 0xF,
            x: b1 & 0xF,
            y: (b2 >> 4) & 0xF,
            n: b2 & 0xF,
            nn: b2,
            nnn: ((b1 & 0xF) as u16) << 8 | b2 as u16,
        }
    }
}

} // verus!
