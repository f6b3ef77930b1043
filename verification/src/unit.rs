//! Units: plain data records with a fixed 29-byte little-endian
//! serialization. The format stores positions and the heading angle
//! as IEEE-754 single-precision floats; the library carries them as
//! their exact 32-bit encodings, so the byte output is pinned down
//! bit for bit.

use vstd::prelude::*;

use crate::bytes::{le4, u32_le, u16_le, push_u32_le, push_u16_le, push_byte};

verus! {

/// IEEE-754 single-precision bits of 2.0, the record's two fixed
/// placeholder values.
pub const PLACEHOLDER_FLOAT_BITS: u32 = 0x4000_0000;

/// A unit on the map. `x_bits`, `y_bits` and `angle_bits` hold the
/// IEEE-754 single-precision encodings of the position in tile units
/// and the heading angle in radians.
pub struct Unit {
    pub id: u32,
    pub unit_type: u16,
    pub x_bits: u32,
    pub y_bits: u32,
    pub angle_bits: u32,
    pub frame: u16,
    pub garrison_id: u32,
}

/// The fixed 29-byte record of a unit: x, y, a placeholder float,
/// the id, the type code, a placeholder byte, the angle, the frame,
/// and the garrison host id, all little-endian.
pub open spec fn unit_bytes(u: Unit) -> Seq<u8> {
    u32_le(u.x_bits) + u32_le(u.y_bits) + u32_le(PLACEHOLDER_FLOAT_BITS) + u32_le(u.id) + u16_le(
        u.unit_type,
    ) + seq![2u8] + u32_le(u.angle_bits) + u16_le(u.frame) + u32_le(u.garrison_id)
}

/// A unit record is always exactly 29 bytes long, whatever its field
/// values.
pub proof fn lemma_unit_record_len(u: Unit)
    ensures
        unit_bytes(u).len() == 29,
{
}

impl Unit {
    /// A fresh unit of the given type at the given position (as
    /// float bit patterns), with the default id, no rotation, frame
    /// zero, and no garrison host.
    pub fn new(unit_type: u16, pos_x_bits: u32, pos_y_bits: u32) -> (u: Unit)
        ensures
            u == (Unit {
                id: 1,
                unit_type,
                x_bits: pos_x_bits,
                y_bits: pos_y_bits,
                angle_bits: 0,
                frame: 0,
                garrison_id: 0,
            }),
    {
        Unit {
            id: 1,
            unit_type,
            x_bits: pos_x_bits,
            y_bits: pos_y_bits,
            angle_bits: 0,
            frame: 0,
            garrison_id: 0,
        }
    }

    /// Serializes the unit as its fixed 29-byte record.
    pub fn to_bytes(&self) -> (r: Vec<u8>)
        ensures
            r@ == unit_bytes(*self),
            r@.len() == 29,
    {
        let mut buf: Vec<u8> = Vec::new();
        push_u32_le(&mut buf, self.x_bits);
        push_u32_le(&mut buf, self.y_bits);
        push_u32_le(&mut buf, PLACEHOLDER_FLOAT_BITS);
        push_u32_le(&mut buf, self.id);
        push_u16_le(&mut buf, self.unit_type);
        push_byte(&mut buf, 2);
        push_u32_le(&mut buf, self.angle_bits);
        push_u16_le(&mut buf, self.frame);
        push_u32_le(&mut buf, self.garrison_id);
        proof {
            assert(buf@ =~= unit_bytes(*self));
        }
        buf
    }
}

} // verus!
