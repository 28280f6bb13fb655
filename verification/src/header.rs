//! The fixed twelve-byte header of a DNS message: where each field lies, and
//! that the fields do not overlap.

use crate::buffer_helpers::{
    bit_at, field, lemma_field_frame, lemma_field_range, lemma_with_bit, lemma_with_u16,
    lemma_with_u4, same_outside, with_bit, with_u16, with_u4,
};
use vstd::prelude::*;

verus! {

/// Number of bytes in a message header.
pub const HEADER_LEN: usize = 12;

/// The fields of the header.
#[derive(Clone, Copy, Debug, PartialEq, Eq, Structural)]
pub enum HeaderField {
    Id,
    Qr,
    Opcode,
    Aa,
    Tc,
    Rd,
    Ra,
    Z,
    Rcode,
    QdCount,
    AnCount,
    NsCount,
    ArCount,
}

impl HeaderField {
    /// Offset of the field's first bit, counted from the most significant
    /// bit of the first byte.
    pub open spec fn offset(self) -> int {
        match self {
            HeaderField::Id => 0,
            HeaderField::Qr => 16,
            HeaderField::Opcode => 17,
            HeaderField::Aa => 21,
            HeaderField::Tc => 22,
            HeaderField::Rd => 23,
            HeaderField::Ra => 24,
            HeaderField::Z => 25,
            HeaderField::Rcode => 28,
            HeaderField::QdCount => 32,
            HeaderField::AnCount => 48,
            HeaderField::NsCount => 64,
            HeaderField::ArCount => 80,
        }
    }

    /// Number of bits in the field.
    pub open spec fn width(self) -> nat {
        match self {
            HeaderField::Id => 16,
            HeaderField::Qr => 1,
            HeaderField::Opcode => 4,
            HeaderField::Aa => 1,
            HeaderField::Tc => 1,
            HeaderField::Rd => 1,
            HeaderField::Ra => 1,
            HeaderField::Z => 3,
            HeaderField::Rcode => 4,
            HeaderField::QdCount => 16,
            HeaderField::AnCount => 16,
            HeaderField::NsCount => 16,
            HeaderField::ArCount => 16,
        }
    }

    /// Whether bit `i` of the header belongs to the field.
    pub open spec fn covers(self, i: int) -> bool {
        self.offset() <= i < self.offset() + self.width()
    }

    /// The largest number that the field can hold.
    pub open spec fn max(self) -> nat {
        match self {
            HeaderField::Id => 0xFFFF,
            HeaderField::Qr => 1,
            HeaderField::Opcode => 15,
            HeaderField::Aa => 1,
            HeaderField::Tc => 1,
            HeaderField::Rd => 1,
            HeaderField::Ra => 1,
            HeaderField::Z => 7,
            HeaderField::Rcode => 15,
            HeaderField::QdCount => 0xFFFF,
            HeaderField::AnCount => 0xFFFF,
            HeaderField::NsCount => 0xFFFF,
            HeaderField::ArCount => 0xFFFF,
        }
    }
}

/// The number that `head` holds in the field `f`.
pub open spec fn header_field(head: Seq<u8>, f: HeaderField) -> nat {
    field(head, f.offset(), f.width())
}

/// `head` with the field `f` set to `value`, which is cut to the field's
/// width.
pub open spec fn with_field(head: Seq<u8>, f: HeaderField, value: nat) -> Seq<u8> {
    match f {
        HeaderField::Id
        | HeaderField::QdCount
        | HeaderField::AnCount
        | HeaderField::NsCount
        | HeaderField::ArCount => with_u16(head, f.offset() / 8, value as u16),
        HeaderField::Opcode | HeaderField::Rcode => with_u4(head, f.offset(), value as u8),
        HeaderField::Z => with_bit(
            with_bit(with_bit(head, 25, (value as u8) >> 2), 26, (value as u8) >> 1),
            27,
            value as u8,
        ),
        _ => with_bit(head, f.offset(), value as u8),
    }
}

/// Every field lies inside the header, and every bit of the header belongs to
/// exactly one field.
pub proof fn lemma_fields_partition(i: int)
    requires
        0 <= i < 8 * HEADER_LEN,
    ensures
        exists|f: HeaderField| #[trigger] f.covers(i),
        forall|f: HeaderField, g: HeaderField| f.covers(i) && g.covers(i) ==> f == g,
        forall|f: HeaderField|
            0 <= #[trigger] f.offset() && f.offset() + f.width() <= 8 * HEADER_LEN,
{
    if i < 16 {
        assert(HeaderField::Id.covers(i));
    } else if i < 17 {
        assert(HeaderField::Qr.covers(i));
    } else if i < 21 {
        assert(HeaderField::Opcode.covers(i));
    } else if i < 22 {
        assert(HeaderField::Aa.covers(i));
    } else if i < 23 {
        assert(HeaderField::Tc.covers(i));
    } else if i < 24 {
        assert(HeaderField::Rd.covers(i));
    } else if i < 25 {
        assert(HeaderField::Ra.covers(i));
    } else if i < 28 {
        assert(HeaderField::Z.covers(i));
    } else if i < 32 {
        assert(HeaderField::Rcode.covers(i));
    } else if i < 48 {
        assert(HeaderField::QdCount.covers(i));
    } else if i < 64 {
        assert(HeaderField::AnCount.covers(i));
    } else if i < 80 {
        assert(HeaderField::NsCount.covers(i));
    } else {
        assert(HeaderField::ArCount.covers(i));
    }
}

/// A field never holds more than its width allows.
pub proof fn lemma_header_field_range(head: Seq<u8>, f: HeaderField)
    ensures
        header_field(head, f) <= f.max(),
{
    lemma_field_range(head, f.offset(), f.width());
}

/// Reading a field after writing it gives what was written, every other
/// field reads as before, and no bit outside the written field has changed.
pub proof fn lemma_write_then_read(head: Seq<u8>, f: HeaderField, value: nat, g: HeaderField)
    requires
        head.len() == HEADER_LEN,
        value <= f.max(),
    ensures
        with_field(head, f, value).len() == HEADER_LEN,
        header_field(with_field(head, f, value), f) == value,
        g != f ==> header_field(with_field(head, f, value), g) == header_field(head, g),
        same_outside(head, with_field(head, f, value), f.offset(), f.width()),
{
    let after = with_field(head, f, value);
    match f {
        HeaderField::Id
        | HeaderField::QdCount
        | HeaderField::AnCount
        | HeaderField::NsCount
        | HeaderField::ArCount => {
            lemma_with_u16(head, f.offset() / 8, value as u16);
        },
        HeaderField::Opcode | HeaderField::Rcode => {
            lemma_with_u4(head, f.offset(), value as u8);
        },
        HeaderField::Z => {
            let z = value as u8;
            let h1 = with_bit(head, 25, z >> 2);
            let h2 = with_bit(h1, 26, z >> 1);
            lemma_with_bit(head, 25, z >> 2);
            lemma_with_bit(h1, 26, z >> 1);
            lemma_with_bit(h2, 27, z);
            reveal_with_fuel(field, 4);
            assert(4 * ((z >> 2) % 2) + 2 * ((z >> 1) % 2) + z % 2 == z % 8) by (bit_vector);
            assert(bit_at(h2, 25) == bit_at(h1, 25));
            assert(bit_at(after, 25) == bit_at(h2, 25));
            assert(bit_at(after, 26) == bit_at(h2, 26));
            assert forall|i: int|
                0 <= i < 8 * head.len() && !(25 <= i < 28) implies #[trigger] bit_at(after, i)
                == bit_at(head, i) by {
                assert(bit_at(h1, i) == bit_at(head, i));
                assert(bit_at(h2, i) == bit_at(h1, i));
                assert(bit_at(after, i) == bit_at(h2, i));
            }
        },
        _ => {
            lemma_with_bit(head, f.offset(), value as u8);
        },
    }
    if g != f {
        assert forall|i: int| g.offset() <= i < g.offset() + g.width() implies #[trigger] bit_at(
            after,
            i,
        ) == bit_at(head, i) by {
            assert(!f.covers(i));
        }
        lemma_field_frame(after, head, g.offset(), g.width());
    }
}

} // verus!
