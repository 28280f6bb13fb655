//! Bit fields in a byte buffer, numbered big-endian: bit 0 is the most
//! significant bit of byte 0.
//!
//! A field is named by the offset of its first bit and by its width. The
//! accessors read and write single bits, four-bit fields that do not cross a
//! byte boundary, and byte-aligned 16- and 32-bit fields.

use vstd::prelude::*;

verus! {

/// Bit `k` of the byte `b`, where bit 0 is the most significant.
pub open spec fn byte_bit(b: u8, k: int) -> nat {
    ((b >> ((7 - k) as u8)) & 1) as nat
}

/// Bit `index` of `buf`.
pub open spec fn bit_at(buf: Seq<u8>, index: int) -> nat {
    byte_bit(buf[index / 8], index % 8)
}

/// The unsigned number held in the `width` bits of `buf` that start at bit
/// `offset`, most significant bit first.
pub open spec fn field(buf: Seq<u8>, offset: int, width: nat) -> nat
    decreases width,
{
    if width == 0 {
        0
    } else {
        2 * field(buf, offset, (width - 1) as nat) + bit_at(buf, offset + width - 1)
    }
}

/// Whether the `width` bits from `offset` lie inside `buf`.
pub open spec fn in_bounds(buf: Seq<u8>, offset: int, width: nat) -> bool {
    0 <= offset && offset + width <= 8 * buf.len()
}

/// Whether the `width` bits from `offset` lie inside one byte of `buf`.
pub open spec fn in_one_byte(buf: Seq<u8>, offset: int, width: nat) -> bool {
    in_bounds(buf, offset, width) && offset % 8 + width <= 8
}

/// Whether the `width` bits from `offset` are whole bytes of `buf`.
pub open spec fn byte_aligned(buf: Seq<u8>, offset: int, width: nat) -> bool {
    in_bounds(buf, offset, width) && offset % 8 == 0
}

/// Whether `after` is `before` with nothing changed but the `width` bits
/// from `offset`.
pub open spec fn same_outside(before: Seq<u8>, after: Seq<u8>, offset: int, width: nat) -> bool {
    &&& after.len() == before.len()
    &&& forall|i: int|
        0 <= i < 8 * before.len() && !(offset <= i < offset + width) ==> #[trigger] bit_at(after, i)
            == bit_at(before, i)
}

/// `buf` with the two bytes from the byte `index` replaced by `value`,
/// big-endian.
pub open spec fn with_u16(buf: Seq<u8>, index: int, value: u16) -> Seq<u8> {
    buf.update(index, (value / 256) as u8).update(index + 1, (value % 256) as u8)
}

/// `buf` with the bit at `index` replaced by the lowest bit of `value`.
pub open spec fn with_bit(buf: Seq<u8>, index: int, value: u8) -> Seq<u8> {
    let shift = (7 - index % 8) as u8;
    buf.update(index / 8, buf[index / 8] & !(1u8 << shift) | ((value & 1) << shift))
}

/// `buf` with the four bits from `offset`, which lie in one byte, replaced
/// by the low four bits of `value`.
pub open spec fn with_u4(buf: Seq<u8>, offset: int, value: u8) -> Seq<u8> {
    let shift = (4 - offset % 8) as u8;
    buf.update(offset / 8, buf[offset / 8] & !(0x0Fu8 << shift) | ((value & 0x0F) << shift))
}

/// A single bit is 0 or 1.
pub proof fn lemma_bit_range(buf: Seq<u8>, index: int)
    ensures
        bit_at(buf, index) <= 1,
{
    let b = buf[index / 8];
    let s = (7 - index % 8) as u8;
    assert((b >> s) & 1 <= 1) by (bit_vector);
}

/// A field of `width` bits is below two to the power `width`, here for the
/// widths that the accessors use.
pub proof fn lemma_field_range(buf: Seq<u8>, offset: int, width: nat)
    ensures
        width == 1 ==> field(buf, offset, width) < 2,
        width == 3 ==> field(buf, offset, width) < 8,
        width == 4 ==> field(buf, offset, width) < 16,
        width == 8 ==> field(buf, offset, width) < 0x100,
        width == 16 ==> field(buf, offset, width) < 0x1_0000,
        width == 32 ==> field(buf, offset, width) < 0x1_0000_0000,
    decreases width,
{
    if width == 1 || width == 3 || width == 4 || width == 8 {
        reveal_with_fuel(field, 9);
        lemma_bit_range(buf, offset);
        lemma_bit_range(buf, offset + 1);
        lemma_bit_range(buf, offset + 2);
        lemma_bit_range(buf, offset + 3);
        lemma_bit_range(buf, offset + 4);
        lemma_bit_range(buf, offset + 5);
        lemma_bit_range(buf, offset + 6);
        lemma_bit_range(buf, offset + 7);
    } else if width == 16 {
        lemma_field_range(buf, offset, 8);
        lemma_field_range(buf, offset + 8, 8);
        lemma_field_append_byte(buf, offset, 8);
    } else if width == 32 {
        lemma_field_range(buf, offset, 8);
        lemma_field_range(buf, offset + 8, 8);
        lemma_field_range(buf, offset + 16, 8);
        lemma_field_range(buf, offset + 24, 8);
        lemma_field_append_byte(buf, offset, 8);
        lemma_field_append_byte(buf, offset, 16);
        lemma_field_append_byte(buf, offset, 24);
    }
}

/// A field depends on its own bits only.
pub proof fn lemma_field_frame(a: Seq<u8>, b: Seq<u8>, offset: int, width: nat)
    requires
        forall|i: int| offset <= i < offset + width ==> #[trigger] bit_at(a, i) == bit_at(b, i),
    ensures
        field(a, offset, width) == field(b, offset, width),
    decreases width,
{
    if width > 0 {
        lemma_field_frame(a, b, offset, (width - 1) as nat);
        assert(bit_at(a, offset + width - 1) == bit_at(b, offset + width - 1));
    }
}

/// Eight more bits at the end of a field shift it by one byte.
pub proof fn lemma_field_append_byte(buf: Seq<u8>, offset: int, width: nat)
    ensures
        field(buf, offset, width + 8) == 256 * field(buf, offset, width) + field(
            buf,
            offset + width,
            8,
        ),
{
    reveal_with_fuel(field, 9);
}

/// The eight bits of a byte, read as a field, are the byte.
pub proof fn lemma_field_byte(buf: Seq<u8>, k: int)
    requires
        0 <= k < buf.len(),
    ensures
        field(buf, 8 * k, 8) == buf[k],
{
    reveal_with_fuel(field, 9);
    let b = buf[k];
    assert(b == 128 * ((b >> 7) & 1) + 64 * ((b >> 6) & 1) + 32 * ((b >> 5) & 1) + 16 * ((b >> 4)
        & 1) + 8 * ((b >> 3) & 1) + 4 * ((b >> 2) & 1) + 2 * ((b >> 1) & 1) + ((b >> 0) & 1))
        by (bit_vector);
}

/// Two bytes, read as a 16-bit field, are the big-endian number.
pub proof fn lemma_field_u16(buf: Seq<u8>, k: int)
    requires
        0 <= k,
        k + 2 <= buf.len(),
    ensures
        field(buf, 8 * k, 16) == 256 * buf[k] + buf[k + 1],
{
    lemma_field_append_byte(buf, 8 * k, 8);
    lemma_field_byte(buf, k);
    lemma_field_byte(buf, k + 1);
}

/// Four bytes, read as a 32-bit field, are the big-endian number.
pub proof fn lemma_field_u32(buf: Seq<u8>, k: int)
    requires
        0 <= k,
        k + 4 <= buf.len(),
    ensures
        field(buf, 8 * k, 32) == 0x100_0000 * buf[k] + 0x1_0000 * buf[k + 1] + 0x100 * buf[k + 2]
            + buf[k + 3],
{
    lemma_field_append_byte(buf, 8 * k, 8);
    lemma_field_append_byte(buf, 8 * k, 16);
    lemma_field_append_byte(buf, 8 * k, 24);
    lemma_field_byte(buf, k);
    lemma_field_byte(buf, k + 1);
    lemma_field_byte(buf, k + 2);
    lemma_field_byte(buf, k + 3);
}

/// Bytes that differ only inside a field leave every bit outside it alone.
pub proof fn lemma_same_outside_bytes(before: Seq<u8>, after: Seq<u8>, first: int, count: nat)
    requires
        after.len() == before.len(),
        forall|j: int|
            0 <= j < before.len() && !(first <= j < first + count) ==> after[j] == before[j],
    ensures
        same_outside(before, after, 8 * first, 8 * count),
{
    assert forall|i: int|
        0 <= i < 8 * before.len() && !(8 * first <= i < 8 * first + 8 * count) implies
        #[trigger] bit_at(after, i) == bit_at(before, i) by {
        let j = i / 8;
        assert(!(first <= j < first + count));
    }
}

/// Reading bit fields from a buffer.
pub trait BufferGetters: Sized {
    /// The bytes that the accessors read.
    spec fn bytes(self) -> Seq<u8>;

    /// The bit at `offset`.
    fn get_bit(self, offset: usize) -> (r: u8)
        requires
            in_bounds(self.bytes(), offset as int, 1),
        ensures
            r == field(self.bytes(), offset as int, 1),
            r <= 1,
    ;

    /// The four bits from `offset`, which lie in one byte.
    fn get_u4(self, offset: usize) -> (r: u8)
        requires
            in_one_byte(self.bytes(), offset as int, 4),
        ensures
            r == field(self.bytes(), offset as int, 4),
            r <= 15,
    ;

    /// The two bytes from the bit `offset`, as a big-endian number.
    fn get_u16(self, offset: usize) -> (r: u16)
        requires
            byte_aligned(self.bytes(), offset as int, 16),
        ensures
            r == field(self.bytes(), offset as int, 16),
            r == 256 * self.bytes()[offset as int / 8] + self.bytes()[offset as int / 8 + 1],
    ;

    /// The four bytes from the bit `offset`, as a big-endian number.
    fn get_u32(self, offset: usize) -> (r: u32)
        requires
            byte_aligned(self.bytes(), offset as int, 32),
        ensures
            r == field(self.bytes(), offset as int, 32),
            ({
                let k = offset as int / 8;
                let b = self.bytes();
                r == 0x100_0000 * b[k] + 0x1_0000 * b[k + 1] + 0x100 * b[k + 2] + b[k + 3]
            }),
    ;
}

impl BufferGetters for &[u8] {
    open spec fn bytes(self) -> Seq<u8> {
        self@
    }

    fn get_bit(self, offset: usize) -> (r: u8) {
        let byte_idx = offset / 8;
        let bit_idx = offset % 8;
        let b = self[byte_idx];
        let r = (b << bit_idx) >> 7;
        proof {
            let s: u8 = (7 - bit_idx) as u8;
            let k: u8 = bit_idx as u8;
            assert((b << k) >> 7 == (b >> s) & 1 && (b >> s) & 1 <= 1) by (bit_vector)
                requires
                    k < 8,
                    s == 7 - k,
            ;
            reveal_with_fuel(field, 2);
        }
        r
    }

    fn get_u4(self, offset: usize) -> (r: u8) {
        let byte_idx = offset / 8;
        let bit_offset = offset % 8;
        let b = self[byte_idx];
        let r = (b & (0b00001111u8 << (4 - bit_offset))) >> (4 - bit_offset);
        proof {
            let m: u8 = bit_offset as u8;
            let s: u8 = (4 - bit_offset) as u8;
            assert((b & (0b00001111u8 << s)) >> s == 8 * ((b >> ((7 - m) as u8)) & 1) + 4 * ((b >> (
            (6 - m) as u8)) & 1) + 2 * ((b >> ((5 - m) as u8)) & 1) + ((b >> ((4 - m) as u8)) & 1)
                && (b & (0b00001111u8 << s)) >> s <= 15) by (bit_vector)
                requires
                    m <= 4,
                    s == 4 - m,
            ;
            reveal_with_fuel(field, 5);
            assert((offset + 1) / 8 == byte_idx as int && (offset + 1) % 8 == m + 1);
            assert((offset + 2) / 8 == byte_idx as int && (offset + 2) % 8 == m + 2);
            assert((offset + 3) / 8 == byte_idx as int && (offset + 3) % 8 == m + 3);
        }
        r
    }

    fn get_u16(self, offset: usize) -> (r: u16) {
        let byte_offset = offset / 8;
        let hi = self[byte_offset];
        let lo = self[byte_offset + 1];
        proof {
            assert(((hi as u16) << 8) == 256 * (hi as u16)) by (bit_vector);
            lemma_field_u16(self@, byte_offset as int);
        }
        (lo as u16) + ((hi as u16) << 8)
    }

    fn get_u32(self, offset: usize) -> (r: u32) {
        let byte_offset = offset / 8;
        let b0 = self[byte_offset];
        let b1 = self[byte_offset + 1];
        let b2 = self[byte_offset + 2];
        let b3 = self[byte_offset + 3];
        proof {
            assert(((b0 as u32) << 24) == 0x100_0000 * (b0 as u32)) by (bit_vector);
            assert(((b1 as u32) << 16) == 0x1_0000 * (b1 as u32)) by (bit_vector);
            assert(((b2 as u32) << 8) == 0x100 * (b2 as u32)) by (bit_vector);
            lemma_field_u32(self@, byte_offset as int);
        }
        ((b0 as u32) << 24) + ((b1 as u32) << 16) + ((b2 as u32) << 8) + (b3 as u32)
    }
}

/// Writing a bit sets it and leaves every other bit alone.
pub proof fn lemma_with_bit(buf: Seq<u8>, index: int, value: u8)
    requires
        in_bounds(buf, index, 1),
    ensures
        field(with_bit(buf, index, value), index, 1) == value % 2,
        same_outside(buf, with_bit(buf, index, value), index, 1),
{
    let after = with_bit(buf, index, value);
    let b = buf[index / 8];
    let s: u8 = (7 - index % 8) as u8;
    let nb = b & !(1u8 << s) | ((value & 1) << s);
    assert(((b & !(1u8 << s) | ((value & 1) << s)) >> s) & 1 == value % 2) by (bit_vector)
        requires
            s < 8,
    ;
    assert forall|j: u8| j < 8 && j != s implies ((nb >> j) & 1) == ((b >> j) & 1) by {
        assert(j < 8 && j != s && s < 8 && nb == b & !(1u8 << s) | ((value & 1) << s) ==> ((nb
            >> j) & 1) == ((b >> j) & 1)) by (bit_vector);
    }
    reveal_with_fuel(field, 2);
    assert forall|i: int|
        0 <= i < 8 * buf.len() && !(index <= i < index + 1) implies #[trigger] bit_at(after, i)
        == bit_at(buf, i) by {
        if i / 8 == index / 8 {
            let j: u8 = (7 - i % 8) as u8;
            assert(j != s);
        }
    }
}

/// Writing four bits sets them and leaves every other bit alone.
pub proof fn lemma_with_u4(buf: Seq<u8>, offset: int, value: u8)
    requires
        in_one_byte(buf, offset, 4),
    ensures
        field(with_u4(buf, offset, value), offset, 4) == value % 16,
        same_outside(buf, with_u4(buf, offset, value), offset, 4),
{
    let after = with_u4(buf, offset, value);
    let b = buf[offset / 8];
    let m: u8 = (offset % 8) as u8;
    let s: u8 = (4 - offset % 8) as u8;
    let nb = b & !(0x0Fu8 << s) | ((value & 0x0F) << s);
    assert(8 * ((nb >> ((7 - m) as u8)) & 1) + 4 * ((nb >> ((6 - m) as u8)) & 1) + 2 * ((nb >> ((5
        - m) as u8)) & 1) + ((nb >> ((4 - m) as u8)) & 1) == value % 16) by (bit_vector)
        requires
            m <= 4,
            s == 4 - m,
            nb == b & !(0x0Fu8 << s) | ((value & 0x0F) << s),
    ;
    assert forall|j: u8| j < 8 && !(s <= j < s + 4) implies ((nb >> j) & 1) == ((b >> j) & 1) by {
        assert(j < 8 && !(s <= j < s + 4) && s <= 4 && nb == b & !(0x0Fu8 << s) | ((value & 0x0F)
            << s) ==> ((nb >> j) & 1) == ((b >> j) & 1)) by (bit_vector);
    }
    reveal_with_fuel(field, 5);
    assert((offset + 1) / 8 == offset / 8 && (offset + 1) % 8 == m + 1);
    assert((offset + 2) / 8 == offset / 8 && (offset + 2) % 8 == m + 2);
    assert((offset + 3) / 8 == offset / 8 && (offset + 3) % 8 == m + 3);
    assert forall|i: int|
        0 <= i < 8 * buf.len() && !(offset <= i < offset + 4) implies #[trigger] bit_at(after, i)
        == bit_at(buf, i) by {
        if i / 8 == offset / 8 {
            let j: u8 = (7 - i % 8) as u8;
            assert(!(s <= j < s + 4));
        }
    }
}

/// Writing two bytes sets that 16-bit field and leaves every other bit alone.
pub proof fn lemma_with_u16(buf: Seq<u8>, index: int, value: u16)
    requires
        0 <= index,
        index + 2 <= buf.len(),
    ensures
        field(with_u16(buf, index, value), 8 * index, 16) == value,
        same_outside(buf, with_u16(buf, index, value), 8 * index, 16),
{
    let after = with_u16(buf, index, value);
    lemma_field_u16(after, index);
    lemma_same_outside_bytes(buf, after, index, 2);
}

/// The two bytes written hold the number, and no other byte has changed.
pub proof fn lemma_with_u16_bytes(buf: Seq<u8>, index: int, value: u16)
    requires
        0 <= index,
        index + 2 <= buf.len(),
    ensures
        with_u16(buf, index, value).len() == buf.len(),
        256 * with_u16(buf, index, value)[index] + with_u16(buf, index, value)[index + 1] == value,
        forall|j: int|
            0 <= j < buf.len() && j != index && j != index + 1 ==> with_u16(buf, index, value)[j]
                == buf[j],
{
}

/// Writing the number that two bytes hold already changes nothing.
pub proof fn lemma_with_u16_same(buf: Seq<u8>, index: int, value: u16)
    requires
        0 <= index,
        index + 2 <= buf.len(),
        256 * buf[index] + buf[index + 1] == value,
    ensures
        with_u16(buf, index, value) == buf,
{
    assert(with_u16(buf, index, value) =~= buf);
}

/// Writing bit fields to a buffer.
pub trait BufferSetters {
    /// The bytes that the mutators write.
    spec fn content(&self) -> Seq<u8>;

    /// Sets the bit at `offset` to the lowest bit of `bit`.
    fn put_bit(&mut self, offset: usize, bit: u8)
        requires
            in_bounds(old(self).content(), offset as int, 1),
        ensures
            final(self).content() == with_bit(old(self).content(), offset as int, bit),
            field(final(self).content(), offset as int, 1) == bit % 2,
            same_outside(old(self).content(), final(self).content(), offset as int, 1),
    ;

    /// Sets the four bits from `offset`, which lie in one byte, to the low
    /// four bits of `value`.
    fn put_u4(&mut self, offset: usize, value: u8)
        requires
            in_one_byte(old(self).content(), offset as int, 4),
        ensures
            final(self).content() == with_u4(old(self).content(), offset as int, value),
            field(final(self).content(), offset as int, 4) == value % 16,
            same_outside(old(self).content(), final(self).content(), offset as int, 4),
    ;

    /// Sets the two bytes from the bit `offset` to `value`, big-endian.
    fn put_u16(&mut self, offset: usize, value: u16)
        requires
            byte_aligned(old(self).content(), offset as int, 16),
        ensures
            final(self).content() == with_u16(old(self).content(), offset as int / 8, value),
            field(final(self).content(), offset as int, 16) == value,
            same_outside(old(self).content(), final(self).content(), offset as int, 16),
    ;
}

impl BufferSetters for [u8] {
    open spec fn content(&self) -> Seq<u8> {
        self@
    }

    fn put_bit(&mut self, offset: usize, bit: u8) {
        let byte_idx = offset / 8;
        let bit_idx = offset % 8;
        proof {
            lemma_with_bit(self@, offset as int, bit);
        }
        self[byte_idx] = self[byte_idx] & !(1u8 << (7 - bit_idx)) | ((bit & 1) << (7 - bit_idx));
    }

    fn put_u4(&mut self, offset: usize, value: u8) {
        let byte_idx = offset / 8;
        let bit_offset = offset % 8;
        proof {
            lemma_with_u4(self@, offset as int, value);
        }
        self[byte_idx] = self[byte_idx] & !(0x0Fu8 << (4 - bit_offset)) | ((value & 0x0F) << (4
            - bit_offset));
    }

    fn put_u16(&mut self, offset: usize, value: u16) {
        let byte_offset = offset / 8;
        proof {
            assert((value >> 8) as u8 == (value / 256) as u8 && (value & 0xFF) as u8 == (value
                % 256) as u8) by (bit_vector);
            lemma_with_u16(self@, byte_offset as int, value);
        }
        self[byte_offset] = (value >> 8) as u8;
        self[byte_offset + 1] = (value & 0xFF) as u8;
    }
}

} // verus!
