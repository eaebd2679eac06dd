//! The signal decoder: reads one signal's raw field out of a frame payload
//! and renders its physical value.
//!
//! The physical value is `raw * factor + offset` in exact decimal
//! arithmetic. The display rule is asymmetric on purpose, for output
//! compatibility: with a non-unit factor or a negative offset the value is
//! shown with three decimals (each term rounded to a thousandth, half away
//! from zero), otherwise it is truncated to a whole number (clamped at
//! zero) and shown without decimals. The unit label is appended either way.
//! A multiplexed signal, a field that does not fit the payload, or a
//! definition marked undecodable at load time renders as the empty string.

use crate::defs::{dec_eq_one, dec_is_neg, dec_is_one, Dec, MuxRole, SignalDef, signal_wf};
use crate::extract::{
    be_field, extract_be, extract_le, field_as_signed, le_field, lemma_be_field_bound,
    lemma_le_field_bound, sign_extend,
};
use crate::numtext::{append_u128, dec_str, lemma_pow10_pos, pow10, pow10_i128, zero_pad};
use vstd::arithmetic::div_mod::lemma_div_multiples_vanish;
use vstd::arithmetic::power2::pow2;
use vstd::prelude::*;
use vstd::string::StringExecFns;

verus! {

/// Whether the signal's bit window fits a payload of `len` bytes.
pub open spec fn window_ok(sig: SignalDef, len: int) -> bool {
    if sig.big_endian {
        sig.start_bit < 8 * len
    } else {
        sig.start_bit + sig.width <= 8 * len
    }
}

/// The raw unsigned field value of a signal in a payload.
pub open spec fn raw_field(sig: SignalDef, bytes: Seq<u8>) -> nat {
    if sig.big_endian {
        be_field(bytes, sig.start_bit + 1 - sig.width, sig.width as nat)
    } else {
        le_field(bytes, sig.start_bit as int, sig.width as nat)
    }
}

/// The raw field value with signedness applied.
pub open spec fn raw_of(sig: SignalDef, bytes: Seq<u8>) -> int {
    if sig.signed {
        sign_extend(raw_field(sig, bytes), sig.width as nat)
    } else {
        raw_field(sig, bytes) as int
    }
}

/// Division rounding half away from zero.
pub open spec fn round_div(a: int, d: int) -> int
    recommends
        d >= 1,
{
    if a >= 0 {
        (2 * a + d) / (2 * d)
    } else {
        -((2 * (-a) + d) / (2 * d))
    }
}

/// The physical value in exact thousandths: the scaled term and the offset
/// term each rounded to a thousandth, half away from zero.
pub open spec fn scaled_milli(raw: int, f: Dec, o: Dec) -> int {
    round_div(raw * f.m * 1000, pow10(f.e as nat)) + round_div(o.m * 1000, pow10(o.e as nat))
}

/// A value in thousandths rendered with three decimals.
pub open spec fn milli_str(n: int) -> Seq<char> {
    let a = if n >= 0 {
        n
    } else {
        -n
    };
    (if n < 0 {
        seq!['-']
    } else {
        Seq::<char>::empty()
    }) + dec_str(a / 1000) + seq!['.'] + zero_pad(dec_str(a % 1000), 3)
}

/// The whole-number display value: `raw + offset` truncated toward minus
/// infinity and clamped at zero (the offset is non-negative here).
pub open spec fn int_display(raw: int, o: Dec) -> int {
    let t = raw * pow10(o.e as nat) + o.m;
    if t < 0 {
        0
    } else {
        t / pow10(o.e as nat)
    }
}

/// What the decoder prints for one signal of one frame payload.
pub open spec fn spec_signal_text(sig: SignalDef, bytes: Seq<u8>) -> Seq<char> {
    if sig.undecodable {
        Seq::empty()
    } else if !(sig.mux is Plain || sig.mux is Selector) {
        Seq::empty()
    } else if !window_ok(sig, bytes.len() as int) {
        Seq::empty()
    } else {
        let raw = raw_of(sig, bytes);
        if !dec_is_one(sig.factor) || dec_is_neg(sig.offset) {
            milli_str(scaled_milli(raw, sig.factor, sig.offset)) + sig.unit@
        } else {
            dec_str(int_display(raw, sig.offset)) + sig.unit@
        }
    }
}

/// The product of two values within given magnitude bounds stays within the
/// product of the bounds.
proof fn lemma_mul_bound(a: int, b: int, ca: int, cb: int)
    by (nonlinear_arith)
    requires
        -ca <= a <= ca,
        -cb <= b <= cb,
        0 <= ca,
        0 <= cb,
    ensures
        -(ca * cb) <= a * b <= ca * cb,
{
}

fn round_div_i128(a: i128, d: i128) -> (r: i128)
    requires
        1 <= d <= 0x1000_0000_0000_0000_0000_0000_0000_0000,
        -0x1000_0000_0000_0000_0000_0000_0000_0000 <= a
            <= 0x1000_0000_0000_0000_0000_0000_0000_0000,
    ensures
        r == round_div(a as int, d as int),
        a >= 0 ==> 0 <= r <= a,
        a < 0 ==> a <= r <= 0,
{
    proof {
        lemma_round_div_bound(if a >= 0 { a as int } else { -(a as int) }, d as int);
    }
    if a >= 0 {
        (2 * a + d) / (2 * d)
    } else {
        -((2 * (-a) + d) / (2 * d))
    }
}

/// The rounded quotient of a non-negative value stays within it.
proof fn lemma_round_div_bound(a: int, d: int)
    by (nonlinear_arith)
    requires
        a >= 0,
        d >= 1,
    ensures
        0 <= (2 * a + d) / (2 * d) <= a,
{
}

/// Renders a value in thousandths with three decimals and appends it.
fn append_milli(out: &mut String, n: i128)
    requires
        n > i128::MIN,
    ensures
        final(out)@ == old(out)@ + milli_str(n as int),
{
    let a: u128 = if n >= 0 {
        n as u128
    } else {
        (-n) as u128
    };
    if n < 0 {
        out.push('-');
    }
    let ghost signed_part = out@;
    append_u128(out, a / 1000);
    out.push('.');
    let frac = a % 1000;
    let ghost before_pad = out@;
    if frac < 100 {
        out.push('0');
    }
    if frac < 10 {
        out.push('0');
    }
    append_u128(out, frac);
    proof {
        lemma_dec_str_len(frac as int);
        if frac < 10 {
            assert(before_pad + seq!['0'] + seq!['0'] + dec_str(frac as int) =~= before_pad
                + zero_pad(dec_str(frac as int), 3));
        } else if frac < 100 {
            assert(before_pad + seq!['0'] + dec_str(frac as int) =~= before_pad + zero_pad(
                dec_str(frac as int),
                3,
            ));
        } else {
            assert(before_pad + dec_str(frac as int) =~= before_pad + zero_pad(
                dec_str(frac as int),
                3,
            ));
        }
        assert(out@ =~= old(out)@ + milli_str(n as int));
    }
}

/// How long the decimal form of a small value is.
proof fn lemma_dec_str_len(n: int)
    requires
        0 <= n < 1000,
    ensures
        n < 10 ==> dec_str(n).len() == 1,
        10 <= n < 100 ==> dec_str(n).len() == 2,
        100 <= n ==> dec_str(n).len() == 3,
        n < 10 ==> zero_pad(dec_str(n), 3) =~= seq!['0', '0'] + dec_str(n),
        10 <= n < 100 ==> zero_pad(dec_str(n), 3) =~= seq!['0'] + dec_str(n),
        100 <= n ==> zero_pad(dec_str(n), 3) == dec_str(n),
{
    reveal_with_fuel(dec_str, 4);
    if n >= 10 {
        assert(dec_str(n / 10).len() == (if n < 100 {
            1int
        } else {
            2int
        })) by {
            reveal_with_fuel(dec_str, 4);
        }
    }
    if n < 10 {
        assert(zero_pad(dec_str(n), 3) =~= seq!['0', '0'] + dec_str(n));
    } else if n < 100 {
        assert(zero_pad(dec_str(n), 3) =~= seq!['0'] + dec_str(n));
    }
}

/// Decodes one signal of one frame payload into its display text.
pub fn signal_value_text(sig: &SignalDef, bytes: &Vec<u8>) -> (r: String)
    requires
        signal_wf(*sig),
    ensures
        r@ == spec_signal_text(*sig, bytes@),
{
    if sig.undecodable {
        return String::new();
    }
    let plain = match sig.mux {
        MuxRole::Plain => true,
        MuxRole::Selector => true,
        MuxRole::Selected(_) => false,
    };
    if !plain {
        return String::new();
    }
    let start = sig.start_bit as usize;
    let width = sig.width as usize;
    let in_window: bool = if sig.big_endian {
        start / 8 < bytes.len()
    } else {
        bytes.len() >= 8 || start + width <= 8 * bytes.len()
    };
    proof {
        assert(in_window == window_ok(*sig, bytes@.len() as int));
    }
    if !in_window {
        return String::new();
    }
    let raw_u: u64 = if sig.big_endian {
        extract_be(bytes, start + 1 - width, width)
    } else {
        extract_le(bytes, start, width)
    };
    proof {
        assert(raw_u as nat == raw_field(*sig, bytes@));
        lemma_le_field_bound(bytes@, start as int, width as nat);
        lemma_be_field_bound(bytes@, start + 1 - width, width as nat);
    }
    let raw: i128 = if sig.signed {
        field_as_signed(raw_u, width)
    } else {
        raw_u as i128
    };
    proof {
        assert(raw as int == raw_of(*sig, bytes@));
        assert(-0x1_0000_0000_0000_0000 <= raw <= 0x1_0000_0000_0000_0000) by {
            assert(pow2(width as nat) <= pow2(64)) by {
                if width < 64 {
                    vstd::arithmetic::power2::lemma_pow2_strictly_increases(width as nat, 64);
                }
            }
            vstd::arithmetic::power2::lemma2_to64_rest();
        }
    }
    let mut out = String::new();
    if !dec_eq_one(&sig.factor) || sig.offset.m < 0 {
        let pf = pow10_i128(sig.factor.e);
        let po = pow10_i128(sig.offset.e);
        proof {
            lemma_mul_bound(raw as int, sig.factor.m as int, 0x1_0000_0000_0000_0000, 1000000000000);
            assert(-0x1000_0000_0000_0000_0000_0000_0000_0000 <= raw as int * sig.factor.m * 1000
                <= 0x1000_0000_0000_0000_0000_0000_0000_0000);
        }
        let term1 = round_div_i128(raw * (sig.factor.m as i128) * 1000, pf);
        let term2 = round_div_i128((sig.offset.m as i128) * 1000, po);
        let n = term1 + term2;
        proof {
            assert(n as int == scaled_milli(raw as int, sig.factor, sig.offset));
        }
        append_milli(&mut out, n);
        proof {
            assert(Seq::<char>::empty() + milli_str(n as int) =~= milli_str(n as int));
        }
    } else {
        let po = pow10_i128(sig.offset.e);
        proof {
            lemma_mul_bound(raw as int, po as int, 0x1_0000_0000_0000_0000, 1000000000000000);
        }
        let t = raw * po + (sig.offset.m as i128);
        let v: u128 = if t < 0 {
            0
        } else {
            (t / po) as u128
        };
        proof {
            let tt = raw as int * pow10(sig.offset.e as nat) + sig.offset.m;
            if tt >= 0 {
                assert(t / po >= 0) by {
                    vstd::arithmetic::div_mod::lemma_div_pos_is_pos(t as int, po as int);
                }
                assert(t / po <= t) by {
                    vstd::arithmetic::div_mod::lemma_div_nonincreasing(t as int, po as int);
                }
            }
            assert(v as int == int_display(raw as int, sig.offset));
        }
        append_u128(&mut out, v);
        proof {
            assert(Seq::<char>::empty() + dec_str(v as int) =~= dec_str(v as int));
        }
    }
    out.append(sig.unit.as_str());
    out
}

// ---------------------------------------------------------------------------
// Laws of the decoder.
// ---------------------------------------------------------------------------

/// With a unit factor, a zero offset and an unsigned in-window signal, the
/// decoder prints exactly the decimal form of the raw field value with the
/// unit appended and no decimals: decoding is the identity on the raw
/// value's literal form.
pub proof fn lemma_identity_decode(sig: SignalDef, bytes: Seq<u8>)
    requires
        signal_wf(sig),
        !sig.undecodable,
        sig.mux is Plain,
        !sig.signed,
        dec_is_one(sig.factor),
        sig.offset.m == 0,
        window_ok(sig, bytes.len() as int),
    ensures
        spec_signal_text(sig, bytes) == dec_str(raw_field(sig, bytes) as int) + sig.unit@,
{
    let raw = raw_field(sig, bytes) as int;
    let p = pow10(sig.offset.e as nat);
    lemma_pow10_pos(sig.offset.e as nat);
    assert(raw * p + 0 == p * raw) by (nonlinear_arith);
    lemma_div_multiples_vanish(raw, p);
    assert(int_display(raw, sig.offset) == raw);
}

} // verus!
