//! Fields of a 64-bit word, and facts about replacing them.
use vstd::prelude::*;

verus! {

/// The field of `x` that starts at bit `off` and is selected by `mask`.
pub open spec fn field(x: u64, off: u64, mask: u64) -> u64 {
    (x >> off) & mask
}

/// `x` with the field that starts at bit `off` and is selected by `mask`
/// replaced by `v`.
pub open spec fn with_field(x: u64, off: u64, mask: u64, v: u64) -> u64 {
    (x & !(mask << off)) | (v << off)
}

/// Replacing a 4-bit field at `off` sets that field and keeps a 4-bit or
/// 1-bit field at `off2` that does not overlap it.
proof fn lemma_with_nibble_at(x: u64, off: u64, v: u64, off2: u64)
    by (bit_vector)
    requires
        off <= 60,
        v < 16,
    ensures
        (((x & !(15u64 << off)) | (v << off)) >> off) & 15 == v,
        off2 <= 60 && (off2 + 4 <= off || off + 4 <= off2) ==> ((((x & !(15u64 << off)) | (v
            << off)) >> off2) & 15) == (x >> off2) & 15,
        off2 < 64 && (off2 < off || off + 4 <= off2) ==> ((((x & !(15u64 << off)) | (v << off))
            >> off2) & 1) == (x >> off2) & 1,
{
}

/// Replacing a 4-bit field sets that field and keeps every field that does
/// not overlap it.
pub proof fn lemma_with_nibble(x: u64, off: u64, v: u64)
    requires
        off <= 60,
        v < 16,
    ensures
        field(with_field(x, off, 15, v), off, 15) == v,
        forall|off2: u64| #![trigger field(with_field(x, off, 15, v), off2, 15)]
            off2 <= 60 && (off2 + 4 <= off || off + 4 <= off2)
            ==> field(with_field(x, off, 15, v), off2, 15) == field(x, off2, 15),
        forall|off2: u64| #![trigger field(with_field(x, off, 15, v), off2, 1)]
            off2 < 64 && (off2 < off || off + 4 <= off2)
            ==> field(with_field(x, off, 15, v), off2, 1) == field(x, off2, 1),
{
    lemma_with_nibble_at(x, off, v, 0);
    assert forall|off2: u64|
        off2 <= 60 && (off2 + 4 <= off || off + 4 <= off2) implies #[trigger] field(
            with_field(x, off, 15, v),
            off2,
            15,
        ) == field(x, off2, 15) by {
        lemma_with_nibble_at(x, off, v, off2);
    }
    assert forall|off2: u64| off2 < 64 && (off2 < off || off + 4 <= off2) implies #[trigger] field(
        with_field(x, off, 15, v),
        off2,
        1,
    ) == field(x, off2, 1) by {
        lemma_with_nibble_at(x, off, v, off2);
    }
}

/// Setting or clearing bit `off` sets that bit and keeps a 4-bit or 1-bit
/// field at `off2` that does not overlap it.
proof fn lemma_with_bit_at(x: u64, off: u64, v: u64, off2: u64)
    by (bit_vector)
    requires
        off < 64,
        v < 2,
    ensures
        ((((x & !(1u64 << off)) | (v << off)) >> off) & 1) == v,
        (x & !(1u64 << off)) | (1u64 << off) == x | (1u64 << off),
        (x & !(1u64 << off)) | (0u64 << off) == x & !(1u64 << off),
        off2 <= 60 && (off < off2 || off2 + 4 <= off) ==> ((((x & !(1u64 << off)) | (v << off))
            >> off2) & 15) == (x >> off2) & 15,
        off2 < 64 && off2 != off ==> ((((x & !(1u64 << off)) | (v << off)) >> off2) & 1) == (x
            >> off2) & 1,
{
}

/// Setting or clearing one bit sets that bit and keeps every other field.
pub proof fn lemma_with_bit(x: u64, off: u64, v: u64)
    requires
        off < 64,
        v < 2,
    ensures
        field(with_field(x, off, 1, v), off, 1) == v,
        with_field(x, off, 1, 1) == x | (1u64 << off),
        with_field(x, off, 1, 0) == x & !(1u64 << off),
        forall|off2: u64| #![trigger field(with_field(x, off, 1, v), off2, 15)]
            off2 <= 60 && (off < off2 || off2 + 4 <= off)
            ==> field(with_field(x, off, 1, v), off2, 15) == field(x, off2, 15),
        forall|off2: u64| #![trigger field(with_field(x, off, 1, v), off2, 1)]
            off2 < 64 && off2 != off
            ==> field(with_field(x, off, 1, v), off2, 1) == field(x, off2, 1),
{
    lemma_with_bit_at(x, off, v, 0);
    assert forall|off2: u64|
        off2 <= 60 && (off < off2 || off2 + 4 <= off) implies #[trigger] field(
            with_field(x, off, 1, v),
            off2,
            15,
        ) == field(x, off2, 15) by {
        lemma_with_bit_at(x, off, v, off2);
    }
    assert forall|off2: u64| off2 < 64 && off2 != off implies #[trigger] field(
        with_field(x, off, 1, v),
        off2,
        1,
    ) == field(x, off2, 1) by {
        lemma_with_bit_at(x, off, v, off2);
    }
}

} // verus!

verus! {

/// Every field fits its mask.
pub proof fn lemma_field_bounds(x: u64, o: u64)
    by (bit_vector)
    ensures
        (x >> o) & 1 < 2,
        (x >> o) & 3 < 4,
        (x >> o) & 15 < 16,
        (x >> o) & 31 < 32,
        (x >> o) & 63 < 64,
        (x >> o) & 127 < 128,
        (x >> o) & 511 < 512,
        (x >> o) & 8 == 0 || (x >> o) & 8 == 8,
        0u64 >> o == 0,
        0u64 & 15 == 0,
{
}

/// Testing a field against a mask in place is testing the field.
pub proof fn lemma_mask_tests(x: u64, off: u64)
    by (bit_vector)
    requires
        off <= 60,
    ensures
        (x & (15u64 << off) == 15u64 << off) == ((x >> off) & 15 == 15),
        (x & (15u64 << off) == 0) == ((x >> off) & 15 == 0),
        x & (15u64 << off) == ((x >> off) & 15) << off,
        (x & (3u64 << off) == 3u64 << off) == ((x >> off) & 3 == 3),
        (x & (1u64 << off) != 0) == ((x >> off) & 1 == 1),
        (x >> off) & 15 != 15 ==> (14u64 << off) - (x & (15u64 << off)) == ((14 - ((x >> off)
            & 15)) as u64) << off,
        x | (15u64 << off) == (x & !(15u64 << off)) | (15u64 << off),
{
}

} // verus!

verus! {

/// Facts about small piece and square codes.
pub proof fn lemma_code_facts(code: u8, c: u16)
    by (bit_vector)
    requires
        c < 16,
    ensures
        (code & !1u8 == 2u8) == (code == 2 || code == 3),
        code & 3 == code % 4,
        code >> 2 == code / 4,
        (((1u16 << 3u16) | (1u16 << 5u16) | (1u16 << 7u16)) & (1u16 << c) != 0) == (c == 3 || c
            == 5 || c == 7),
        (((0x7000u16 >> c) & 1u16) != 0) == (12 <= c && c <= 14),
{
}

/// Facts about the bits of a 9-bit two's complement number.
pub proof fn lemma_i9_bits(value: u64)
    by (bit_vector)
    requires
        value < 512,
    ensures
        (value & (1u64 << 8u64) != 0) == (value >= 256),
        value >= 256 ==> value & 0xff == value - 256,
        1i16 << 9i16 == 512i16,
{
}

} // verus!
