//! Primitive field values and their fixed-width little-endian encodings.
//!
//! Floating-point fields travel through the writer as their IEEE 754 bit
//! patterns: the byte layout is exactly that of the corresponding unsigned
//! integer, and this crate never interprets the bits arithmetically.

use vstd::prelude::*;
use crate::bytes::{le_bytes, le_value, pow256, lemma_pow256_values, lemma_le_bytes_len,
    lemma_le_value_bound, lemma_le_round_trip, push_le_bytes, read_le_bytes};

verus! {

/// The binary representation of one primitive field element.
#[derive(Clone, Copy, Debug, PartialEq, Eq, Structural)]
pub enum ScalarKind {
    I8,
    I16,
    I32,
    I64,
    U8,
    U16,
    U32,
    U64,
    F32,
    F64,
}

/// One primitive field element. Floats are carried as raw bit patterns.
#[derive(Clone, Copy, Debug, PartialEq, Eq, Structural)]
pub enum Scalar {
    I8(i8),
    I16(i16),
    I32(i32),
    I64(i64),
    U8(u8),
    U16(u16),
    U32(u32),
    U64(u64),
    /// An IEEE 754 single-precision value, as its raw bits.
    F32Bits(u32),
    /// An IEEE 754 double-precision value, as its raw bits.
    F64Bits(u64),
}

impl DeepView for Scalar {
    type V = Scalar;

    open spec fn deep_view(&self) -> Scalar {
        *self
    }
}

/// The fixed byte width of one element of the given kind.
pub open spec fn kind_width(k: ScalarKind) -> nat {
    match k {
        ScalarKind::I8 => 1,
        ScalarKind::I16 => 2,
        ScalarKind::I32 => 4,
        ScalarKind::I64 => 8,
        ScalarKind::U8 => 1,
        ScalarKind::U16 => 2,
        ScalarKind::U32 => 4,
        ScalarKind::U64 => 8,
        ScalarKind::F32 => 4,
        ScalarKind::F64 => 8,
    }
}

/// The dtype tag of the given kind: byte order, kind letter, byte width.
pub open spec fn spec_tag_chars(k: ScalarKind) -> Seq<char> {
    match k {
        ScalarKind::I8 => "|i1"@,
        ScalarKind::I16 => "<i2"@,
        ScalarKind::I32 => "<i4"@,
        ScalarKind::I64 => "<i8"@,
        ScalarKind::U8 => "|u1"@,
        ScalarKind::U16 => "<u2"@,
        ScalarKind::U32 => "<u4"@,
        ScalarKind::U64 => "<u8"@,
        ScalarKind::F32 => "<f4"@,
        ScalarKind::F64 => "<f8"@,
    }
}

pub open spec fn scalar_kind(s: Scalar) -> ScalarKind {
    match s {
        Scalar::I8(_) => ScalarKind::I8,
        Scalar::I16(_) => ScalarKind::I16,
        Scalar::I32(_) => ScalarKind::I32,
        Scalar::I64(_) => ScalarKind::I64,
        Scalar::U8(_) => ScalarKind::U8,
        Scalar::U16(_) => ScalarKind::U16,
        Scalar::U32(_) => ScalarKind::U32,
        Scalar::U64(_) => ScalarKind::U64,
        Scalar::F32Bits(_) => ScalarKind::F32,
        Scalar::F64Bits(_) => ScalarKind::F64,
    }
}

/// The value of a scalar as an unsigned bit pattern: signed values appear in
/// two's complement, floats as their raw bits.
pub open spec fn scalar_bits(s: Scalar) -> nat {
    match s {
        Scalar::I8(x) => if x < 0 {
            (x + 0x100) as nat
        } else {
            x as nat
        },
        Scalar::I16(x) => if x < 0 {
            (x + 0x1_0000) as nat
        } else {
            x as nat
        },
        Scalar::I32(x) => if x < 0 {
            (x + 0x1_0000_0000) as nat
        } else {
            x as nat
        },
        Scalar::I64(x) => if x < 0 {
            (x + 0x1_0000_0000_0000_0000) as nat
        } else {
            x as nat
        },
        Scalar::U8(x) => x as nat,
        Scalar::U16(x) => x as nat,
        Scalar::U32(x) => x as nat,
        Scalar::U64(x) => x as nat,
        Scalar::F32Bits(b) => b as nat,
        Scalar::F64Bits(b) => b as nat,
    }
}

/// The scalar of kind `k` whose unsigned bit pattern is `b`.
pub open spec fn scalar_of_bits(k: ScalarKind, b: nat) -> Scalar
    recommends
        b < pow256(kind_width(k)),
{
    match k {
        ScalarKind::I8 => Scalar::I8(
            if b >= 0x80 {
                (b - 0x100) as i8
            } else {
                b as i8
            },
        ),
        ScalarKind::I16 => Scalar::I16(
            if b >= 0x8000 {
                (b - 0x1_0000) as i16
            } else {
                b as i16
            },
        ),
        ScalarKind::I32 => Scalar::I32(
            if b >= 0x8000_0000 {
                (b - 0x1_0000_0000) as i32
            } else {
                b as i32
            },
        ),
        ScalarKind::I64 => Scalar::I64(
            if b >= 0x8000_0000_0000_0000 {
                (b - 0x1_0000_0000_0000_0000) as i64
            } else {
                b as i64
            },
        ),
        ScalarKind::U8 => Scalar::U8(b as u8),
        ScalarKind::U16 => Scalar::U16(b as u16),
        ScalarKind::U32 => Scalar::U32(b as u32),
        ScalarKind::U64 => Scalar::U64(b as u64),
        ScalarKind::F32 => Scalar::F32Bits(b as u32),
        ScalarKind::F64 => Scalar::F64Bits(b as u64),
    }
}

/// The little-endian encoding of one scalar.
pub open spec fn spec_encode_scalar(s: Scalar) -> Seq<u8> {
    le_bytes(scalar_bits(s), kind_width(scalar_kind(s)))
}

/// The bit pattern of a scalar fits its kind's width, and reading the
/// pattern back under the same kind restores the scalar.
pub proof fn lemma_scalar_bits_inverse(s: Scalar)
    ensures
        scalar_bits(s) < pow256(kind_width(scalar_kind(s))),
        scalar_of_bits(scalar_kind(s), scalar_bits(s)) == s,
{
    lemma_pow256_values();
}

impl ScalarKind {
    /// The fixed byte width of one element of this kind.
    pub fn width(&self) -> (r: usize)
        ensures
            r as nat == kind_width(*self),
    {
        match self {
            ScalarKind::I8 => 1,
            ScalarKind::I16 => 2,
            ScalarKind::I32 => 4,
            ScalarKind::I64 => 8,
            ScalarKind::U8 => 1,
            ScalarKind::U16 => 2,
            ScalarKind::U32 => 4,
            ScalarKind::U64 => 8,
            ScalarKind::F32 => 4,
            ScalarKind::F64 => 8,
        }
    }

    /// The textual dtype tag written into the header for this kind.
    pub fn type_tag(&self) -> (r: &'static str)
        ensures
            r@ == spec_tag_chars(*self),
    {
        match self {
            ScalarKind::I8 => "|i1",
            ScalarKind::I16 => "<i2",
            ScalarKind::I32 => "<i4",
            ScalarKind::I64 => "<i8",
            ScalarKind::U8 => "|u1",
            ScalarKind::U16 => "<u2",
            ScalarKind::U32 => "<u4",
            ScalarKind::U64 => "<u8",
            ScalarKind::F32 => "<f4",
            ScalarKind::F64 => "<f8",
        }
    }
}

/// Appends the little-endian encoding of `s` to `out`.
pub fn encode_scalar(s: &Scalar, out: &mut Vec<u8>)
    ensures
        final(out)@ == old(out)@ + spec_encode_scalar(*s),
{
    proof {
        lemma_scalar_bits_inverse(*s);
    }
    match *s {
        Scalar::I8(x) => {
            let b: u64 = if x >= 0 {
                x as u64
            } else {
                (x as i64 + 0x100) as u64
            };
            push_le_bytes(out, b, 1);
        },
        Scalar::I16(x) => {
            let b: u64 = if x >= 0 {
                x as u64
            } else {
                (x as i64 + 0x1_0000) as u64
            };
            push_le_bytes(out, b, 2);
        },
        Scalar::I32(x) => {
            let b: u64 = if x >= 0 {
                x as u64
            } else {
                (x as i64 + 0x1_0000_0000) as u64
            };
            push_le_bytes(out, b, 4);
        },
        Scalar::I64(x) => {
            let b: u64 = if x >= 0 {
                x as u64
            } else {
                // two's complement of a negative value, without leaving i64
                u64::MAX - ((-(x + 1)) as u64)
            };
            push_le_bytes(out, b, 8);
        },
        Scalar::U8(x) => push_le_bytes(out, x as u64, 1),
        Scalar::U16(x) => push_le_bytes(out, x as u64, 2),
        Scalar::U32(x) => push_le_bytes(out, x as u64, 4),
        Scalar::U64(x) => push_le_bytes(out, x, 8),
        Scalar::F32Bits(b) => push_le_bytes(out, b as u64, 4),
        Scalar::F64Bits(b) => push_le_bytes(out, b, 8),
    }
}

/// Reads one scalar of kind `k` from `buf` starting at `off`.
pub fn decode_scalar(k: &ScalarKind, buf: &[u8], off: usize) -> (r: Scalar)
    requires
        off + kind_width(*k) <= buf@.len(),
    ensures
        r == scalar_of_bits(
            *k,
            le_value(buf@.subrange(off as int, off + kind_width(*k))),
        ),
{
    let w = k.width();
    let b = read_le_bytes(buf, off, w);
    proof {
        lemma_le_value_bound(buf@.subrange(off as int, off + kind_width(*k)));
        assert(buf@.subrange(off as int, off + kind_width(*k)).len() == kind_width(*k));
        lemma_pow256_values();
    }
    match k {
        ScalarKind::I8 => Scalar::I8(
            if b >= 0x80 {
                ((b as i64) - 0x100) as i8
            } else {
                b as i8
            },
        ),
        ScalarKind::I16 => Scalar::I16(
            if b >= 0x8000 {
                ((b as i64) - 0x1_0000) as i16
            } else {
                b as i16
            },
        ),
        ScalarKind::I32 => Scalar::I32(
            if b >= 0x8000_0000 {
                ((b as i64) - 0x1_0000_0000) as i32
            } else {
                b as i32
            },
        ),
        ScalarKind::I64 => Scalar::I64(
            if b >= 0x8000_0000_0000_0000 {
                // recover the negative value without leaving i64
                -((u64::MAX - b) as i64) - 1
            } else {
                b as i64
            },
        ),
        ScalarKind::U8 => Scalar::U8(b as u8),
        ScalarKind::U16 => Scalar::U16(b as u16),
        ScalarKind::U32 => Scalar::U32(b as u32),
        ScalarKind::U64 => Scalar::U64(b),
        ScalarKind::F32 => Scalar::F32Bits(b as u32),
        ScalarKind::F64 => Scalar::F64Bits(b),
    }
}

/// Round trip of a single scalar: decoding its encoding, under its own
/// kind, restores the scalar, whatever bytes follow the encoding.
pub proof fn lemma_scalar_round_trip(s: Scalar, rest: Seq<u8>)
    ensures
        spec_encode_scalar(s).len() == kind_width(scalar_kind(s)),
        scalar_of_bits(
            scalar_kind(s),
            le_value((spec_encode_scalar(s) + rest).take(kind_width(scalar_kind(s)) as int)),
        ) == s,
{
    lemma_scalar_bits_inverse(s);
    lemma_le_bytes_len(scalar_bits(s), kind_width(scalar_kind(s)));
    assert((spec_encode_scalar(s) + rest).take(kind_width(scalar_kind(s)) as int)
        =~= spec_encode_scalar(s));
    lemma_le_round_trip(scalar_bits(s), kind_width(scalar_kind(s)));
}

} // verus!
