//! Bit-exact extraction of signal fields from a frame payload.
//!
//! Two bit-numbering conventions coexist in automotive databases. For
//! little-endian signals the payload is read as a least-significant-bit-first
//! bit sequence and the field grows toward more significant positions from
//! its start bit. For big-endian signals the payload is read
//! most-significant-bit-first and the start bit names the most significant
//! bit of the field, which spans downward through `start - (width - 1)`.

use vstd::arithmetic::power2::{
    lemma2_to64, lemma_pow2_adds, lemma_pow2_pos, lemma_pow2_strictly_increases, pow2,
};
use vstd::prelude::*;

verus! {

/// Bit `k` of the payload in lsb-first numbering: bit `j` of byte `b`
/// (counting from the least significant) is bit `8 * b + j`.
pub open spec fn bit_lsb(bytes: Seq<u8>, k: int) -> bool
    recommends
        0 <= k < 8 * bytes.len(),
{
    (bytes[k / 8] as nat / pow2((k % 8) as nat)) % 2 == 1
}

/// Bit `k` of the payload in msb-first numbering: bit `7 - j` of byte `b`
/// is bit `8 * b + j`.
pub open spec fn bit_msb(bytes: Seq<u8>, k: int) -> bool
    recommends
        0 <= k < 8 * bytes.len(),
{
    (bytes[k / 8] as nat / pow2((7 - k % 8) as nat)) % 2 == 1
}

/// Value of the `width` bits at `start` in lsb-first numbering, read as a
/// little-endian unsigned integer: bit `start + i` has weight `2^i`.
pub open spec fn le_field(bytes: Seq<u8>, start: int, width: nat) -> nat
    decreases width,
{
    if width == 0 {
        0
    } else {
        le_field(bytes, start, (width - 1) as nat) + if bit_lsb(bytes, start + width - 1) {
            pow2((width - 1) as nat)
        } else {
            0
        }
    }
}

/// Value of the `width` bits at `msb_start` in msb-first numbering, read as
/// a big-endian unsigned integer: bit `msb_start + i` has weight
/// `2^(width - 1 - i)`.
pub open spec fn be_field(bytes: Seq<u8>, msb_start: int, width: nat) -> nat
    decreases width,
{
    if width == 0 {
        0
    } else {
        be_field(bytes, msb_start, (width - 1) as nat) * 2 + if bit_msb(
            bytes,
            msb_start + width - 1,
        ) {
            1nat
        } else {
            0nat
        }
    }
}

pub proof fn lemma_le_field_bound(bytes: Seq<u8>, start: int, width: nat)
    ensures
        le_field(bytes, start, width) < pow2(width),
    decreases width,
{
    if width == 0 {
        lemma_pow2_pos(0);
        assert(pow2(0) == 1) by {
            lemma2_to64();
        }
    } else {
        lemma_le_field_bound(bytes, start, (width - 1) as nat);
        lemma_pow2_adds((width - 1) as nat, 1);
        assert(pow2(1) == 2) by {
            lemma2_to64();
        }
    }
}

pub proof fn lemma_be_field_bound(bytes: Seq<u8>, msb_start: int, width: nat)
    ensures
        be_field(bytes, msb_start, width) < pow2(width),
    decreases width,
{
    if width == 0 {
        assert(pow2(0) == 1) by {
            lemma2_to64();
        }
    } else {
        lemma_be_field_bound(bytes, msb_start, (width - 1) as nat);
        lemma_pow2_adds((width - 1) as nat, 1);
        assert(pow2(1) == 2) by {
            lemma2_to64();
        }
    }
}

/// A little-endian field can also be peeled from its least significant bit.
proof fn lemma_le_field_shift(bytes: Seq<u8>, start: int, width: nat)
    requires
        width >= 1,
    ensures
        le_field(bytes, start, width) == (if bit_lsb(bytes, start) {
            1nat
        } else {
            0nat
        }) + 2 * le_field(bytes, start + 1, (width - 1) as nat),
    decreases width,
{
    if width == 1 {
        assert(pow2(0) == 1) by {
            lemma2_to64();
        }
        assert(le_field(bytes, start, 1) == le_field(bytes, start, 0) + (if bit_lsb(
            bytes,
            start,
        ) {
            pow2(0)
        } else {
            0nat
        }));
        assert(le_field(bytes, start + 1, 0) == 0);
    } else {
        lemma_le_field_shift(bytes, start, (width - 1) as nat);
        lemma_pow2_adds((width - 2) as nat, 1);
        assert(pow2(1) == 2) by {
            lemma2_to64();
        }
        assert(pow2((width - 1) as nat) == 2 * pow2((width - 2) as nat));
        assert(le_field(bytes, start, width) == le_field(bytes, start, (width - 1) as nat)
            + (if bit_lsb(bytes, start + width - 1) {
            pow2((width - 1) as nat)
        } else {
            0nat
        }));
        assert(le_field(bytes, start + 1, (width - 1) as nat) == le_field(
            bytes,
            start + 1,
            (width - 2) as nat,
        ) + (if bit_lsb(bytes, (start + 1) + (width - 1) - 1) {
            pow2((width - 2) as nat)
        } else {
            0nat
        }));
        assert((start + 1) + (width - 1) - 1 == start + width - 1);
    }
}

/// Big-endian and little-endian extraction agree wherever the two encodings
/// place the same logical bits at mirrored positions: if for every offset
/// `i` below the width, lsb-first bit `sa + i` of one payload equals
/// msb-first bit `sb - i` of the other, both fields hold the same value.
pub proof fn lemma_mirrored_fields_equal(a: Seq<u8>, sa: int, b: Seq<u8>, sb: int, w: nat)
    requires
        forall|i: int| 0 <= i < w ==> #[trigger] bit_lsb(a, sa + i) == bit_msb(b, sb - i),
    ensures
        le_field(a, sa, w) == be_field(b, sb - w + 1, w),
    decreases w,
{
    if w > 0 {
        assert(bit_lsb(a, sa + 0) == bit_msb(b, sb - 0));
        assert forall|i: int| 0 <= i < w - 1 implies #[trigger] bit_lsb(a, sa + 1 + i) == bit_msb(
            b,
            (sb - 1) - i,
        ) by {
            assert(bit_lsb(a, sa + (i + 1)) == bit_msb(b, sb - (i + 1)));
        }
        lemma_mirrored_fields_equal(a, sa + 1, b, sb - 1, (w - 1) as nat);
        lemma_le_field_shift(a, sa, w);
        assert(be_field(b, sb - w + 1, w) == be_field(b, sb - w + 1, (w - 1) as nat) * 2 + if bit_msb(
            b,
            sb,
        ) {
            1nat
        } else {
            0nat
        });
        assert((sb - 1) - (w - 1) + 1 == sb - w + 1);
    }
}

/// `2^e` for small exponents, used to select one bit of a byte.
fn pow2_u8(e: usize) -> (r: u8)
    requires
        e < 8,
    ensures
        r as nat == pow2(e as nat),
        r >= 1,
{
    proof {
        lemma2_to64();
    }
    if e == 0 {
        1
    } else if e == 1 {
        2
    } else if e == 2 {
        4
    } else if e == 3 {
        8
    } else if e == 4 {
        16
    } else if e == 5 {
        32
    } else if e == 6 {
        64
    } else {
        128
    }
}

/// `2^e` as a `u64`.
pub fn pow2_u64(e: usize) -> (r: u64)
    requires
        e <= 63,
    ensures
        r as nat == pow2(e as nat),
{
    let mut p: u64 = 1;
    let mut i: usize = 0;
    proof {
        lemma2_to64();
    }
    while i < e
        invariant
            i <= e <= 63,
            p as nat == pow2(i as nat),
        decreases e - i,
    {
        proof {
            lemma_pow2_adds(i as nat, 1);
            lemma2_to64();
            if i + 1 < 64 {
                lemma_pow2_strictly_increases((i + 1) as nat, 64);
            }
        }
        p = p * 2;
        i = i + 1;
    }
    p
}

fn bit_at_lsb(bytes: &Vec<u8>, k: usize) -> (r: bool)
    requires
        k < 8 * bytes.len(),
    ensures
        r == bit_lsb(bytes@, k as int),
{
    let b = bytes[k / 8];
    (b / pow2_u8(k % 8)) % 2 == 1
}

fn bit_at_msb(bytes: &Vec<u8>, k: usize) -> (r: bool)
    requires
        k < 8 * bytes.len(),
    ensures
        r == bit_msb(bytes@, k as int),
{
    let b = bytes[k / 8];
    (b / pow2_u8(7 - k % 8)) % 2 == 1
}

/// Reads `width` bits at `start` of a little-endian signal.
pub fn extract_le(bytes: &Vec<u8>, start: usize, width: usize) -> (r: u64)
    requires
        width <= 64,
        start + width <= 8 * bytes.len(),
        start + width <= usize::MAX,
    ensures
        r as nat == le_field(bytes@, start as int, width as nat),
{
    let mut acc: u64 = 0;
    let mut p: u64 = 1;
    proof {
        lemma2_to64();
    }
    for i in 0..width
        invariant
            width <= 64,
            start + width <= 8 * bytes.len(),
            start + width <= usize::MAX,
            acc as nat == le_field(bytes@, start as int, i as nat),
            (acc as nat) < pow2(i as nat),
            i < width ==> p as nat == pow2(i as nat),
    {
        proof {
            lemma_pow2_adds(i as nat, 1);
            lemma2_to64();
            if i + 1 < 64 {
                lemma_pow2_strictly_increases((i + 1) as nat, 64);
            }
        }
        if bit_at_lsb(bytes, start + i) {
            acc = acc + p;
        }
        if i + 1 < width {
            p = p * 2;
        }
    }
    acc
}

/// Reads `width` bits whose most significant bit stands at `msb_start` of a
/// big-endian signal.
pub fn extract_be(bytes: &Vec<u8>, msb_start: usize, width: usize) -> (r: u64)
    requires
        width <= 64,
        msb_start + width <= 8 * bytes.len(),
        msb_start + width <= usize::MAX,
    ensures
        r as nat == be_field(bytes@, msb_start as int, width as nat),
{
    let mut acc: u64 = 0;
    proof {
        lemma2_to64();
    }
    for i in 0..width
        invariant
            width <= 64,
            msb_start + width <= 8 * bytes.len(),
            msb_start + width <= usize::MAX,
            acc as nat == be_field(bytes@, msb_start as int, i as nat),
            (acc as nat) < pow2(i as nat),
    {
        proof {
            lemma_pow2_adds(i as nat, 1);
            lemma2_to64();
            if i + 1 < 64 {
                lemma_pow2_strictly_increases((i + 1) as nat, 64);
            }
        }
        let bit = bit_at_msb(bytes, msb_start + i);
        acc = acc * 2 + if bit {
            1
        } else {
            0
        };
    }
    acc
}

/// The two's-complement reading of a `width`-bit raw value.
pub open spec fn sign_extend(v: nat, width: nat) -> int {
    if width > 0 && v >= pow2((width - 1) as nat) {
        v - pow2(width)
    } else {
        v as int
    }
}

/// Reinterprets a raw field as a signed (two's complement) value.
pub fn field_as_signed(raw: u64, width: usize) -> (r: i128)
    requires
        1 <= width <= 64,
        (raw as nat) < pow2(width as nat),
    ensures
        r as int == sign_extend(raw as nat, width as nat),
{
    let half = pow2_u64(width - 1);
    proof {
        lemma_pow2_adds((width - 1) as nat, 1);
        lemma2_to64();
    }
    if raw >= half {
        (raw as i128) - 2 * (half as i128)
    } else {
        raw as i128
    }
}

} // verus!
