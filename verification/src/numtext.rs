//! Verified text/number primitives shared by the trace parser and the
//! signal decoder: hexadecimal and decimal token parsing (modelling the
//! standard library's radix parsing), and decimal / hexadecimal rendering.

use vstd::prelude::*;
use vstd::string::StrSliceExecFns;

verus! {

/// Relies on String::push: appends one character to the string.
pub assume_specification[ String::push ](s: &mut String, c: char)
    ensures
        final(s)@ == old(s)@.push(c),
;

/// Unicode White_Space code points, as used by whitespace tokenization.
pub open spec fn is_ws_char(c: char) -> bool {
    let u = c as u32;
    u == 0x20 || u == 0x09 || u == 0x0a || u == 0x0d || u == 0x0b || u == 0x0c || u == 0x85
        || u == 0xa0 || u == 0x1680 || (0x2000 <= u && u <= 0x200a) || u == 0x2028 || u == 0x2029
        || u == 0x202f || u == 0x205f || u == 0x3000
}

pub fn ws_char(c: char) -> (r: bool)
    ensures
        r == is_ws_char(c),
{
    let u = c as u32;
    u == 0x20 || u == 0x09 || u == 0x0a || u == 0x0d || u == 0x0b || u == 0x0c || u == 0x85
        || u == 0xa0 || u == 0x1680 || (0x2000 <= u && u <= 0x200a) || u == 0x2028 || u == 0x2029
        || u == 0x202f || u == 0x205f || u == 0x3000
}

/// The characters of a string slice, as a vector.
pub fn chars_of(s: &str) -> (r: Vec<char>)
    ensures
        r@ == s@,
{
    let n: usize = s.unicode_len();
    let mut r: Vec<char> = Vec::new();
    for i in 0..n
        invariant
            n == s@.len(),
            r@ == s@.take(i as int),
    {
        r.push(s.get_char(i));
        proof {
            assert(r@ =~= s@.take(i as int + 1));
        }
    }
    proof {
        assert(r@ =~= s@);
    }
    r
}

// ---------------------------------------------------------------------------
// Hexadecimal parsing, modelled after unsigned integer parsing with radix
// 16: an optional single `+`, then one or more hex digits. A minus sign, a
// malformed digit, or a magnitude over the bound is rejected.
// ---------------------------------------------------------------------------

/// Value of a hex digit, or -1 when the character is not one.
pub open spec fn hex_digit_val(c: char) -> int {
    let u = c as u32;
    if 0x30 <= u && u <= 0x39 {
        u - 0x30
    } else if 0x41 <= u && u <= 0x46 {
        u - 0x41 + 10
    } else if 0x61 <= u && u <= 0x66 {
        u - 0x61 + 10
    } else {
        -1
    }
}

pub fn hex_digit(c: char) -> (r: i8)
    ensures
        r as int == hex_digit_val(c),
{
    let u = c as u32;
    if 0x30 <= u && u <= 0x39 {
        (u - 0x30) as i8
    } else if 0x41 <= u && u <= 0x46 {
        (u - 0x41 + 10) as i8
    } else if 0x61 <= u && u <= 0x66 {
        (u - 0x61 + 10) as i8
    } else {
        -1
    }
}

pub open spec fn all_hex(s: Seq<char>) -> bool {
    forall|i: int| 0 <= i < s.len() ==> hex_digit_val(s[i]) >= 0
}

/// Magnitude of a sequence of hex digits (most significant first).
pub open spec fn hex_mag(s: Seq<char>) -> int
    decreases s.len(),
{
    if s.len() == 0 {
        0
    } else {
        hex_mag(s.drop_last()) * 16 + hex_digit_val(s.last())
    }
}

/// Sign handling shared by all token parsers: strips one leading `+` or `-`.
pub open spec fn token_negative(s: Seq<char>) -> bool {
    s.len() > 0 && s[0] == '-'
}

pub open spec fn token_digits(s: Seq<char>) -> Seq<char> {
    if s.len() > 0 && (s[0] == '+' || s[0] == '-') {
        s.drop_first()
    } else {
        s
    }
}

/// The value of a hex token with bound `max`, or `None` when the token is
/// malformed, signed negative, or over the bound.
pub open spec fn spec_parse_hex(s: Seq<char>, max: int) -> Option<int> {
    if token_negative(s) {
        None
    } else {
        let ds = token_digits(s);
        if ds.len() == 0 || !all_hex(ds) {
            None
        } else {
            let m = hex_mag(ds);
            if m <= max {
                Some(m)
            } else {
                None
            }
        }
    }
}

proof fn lemma_hex_mag_nonneg(s: Seq<char>)
    requires
        all_hex(s),
    ensures
        hex_mag(s) >= 0,
    decreases s.len(),
{
    if s.len() > 0 {
        assert(all_hex(s.drop_last()));
        lemma_hex_mag_nonneg(s.drop_last());
    }
}

proof fn lemma_hex_mag_prefix(s: Seq<char>, k: int)
    requires
        all_hex(s),
        0 <= k <= s.len(),
    ensures
        hex_mag(s) >= hex_mag(s.take(k)),
    decreases s.len() - k,
{
    if k < s.len() {
        lemma_hex_mag_prefix(s, k + 1);
        assert(s.take(k + 1).drop_last() =~= s.take(k));
        assert(hex_mag(s.take(k + 1)) == hex_mag(s.take(k)) * 16 + hex_digit_val(s[k]));
        assert(all_hex(s.take(k)));
        lemma_hex_mag_nonneg(s.take(k));
    } else {
        assert(s.take(k) =~= s);
    }
}

/// Hex token parse with an inclusive bound, as radix-16 integer parsing does.
pub fn parse_hex_bounded(tok: &Vec<char>, max: u64) -> (r: Option<u64>)
    requires
        max >= 15,
    ensures
        match r {
            Some(v) => spec_parse_hex(tok@, max as int) == Some(v as int),
            None => spec_parse_hex(tok@, max as int) is None,
        },
{
    let ghost s = tok@;
    let mut i: usize = 0;
    if tok.len() > 0 && tok[0] == '-' {
        return None;
    }
    if tok.len() > 0 && tok[0] == '+' {
        i = 1;
    }
    proof {
        assert(token_digits(s) =~= s.skip(i as int));
    }
    let ghost ds = token_digits(s);
    if i >= tok.len() {
        return None;
    }
    let start: usize = i;
    let mut acc: u64 = 0;
    while i < tok.len()
        invariant
            start <= i <= tok.len(),
            s == tok@,
            !token_negative(s),
            ds == token_digits(s),
            ds =~= s.skip(start as int),
            all_hex(ds.take(i - start)),
            acc as int == hex_mag(ds.take(i - start)),
            acc <= max,
            max >= 15,
        decreases tok.len() - i,
    {
        let d = hex_digit(tok[i]);
        if d < 0 {
            proof {
                assert(ds[i - start] == s[i as int]);
                assert(!all_hex(ds));
            }
            return None;
        }
        proof {
            assert(ds.take(i - start + 1).drop_last() =~= ds.take(i - start));
            assert(ds.take(i - start + 1).last() == ds[i - start] == s[i as int]);
        }
        if acc > max / 16 || acc * 16 > max - (d as u64) {
            // the magnitude already exceeds the bound; whatever follows, the
            // token can only be rejected
            proof {
                let pre = ds.take(i - start + 1);
                assert(hex_mag(pre) == acc * 16 + d);
                assert(all_hex(pre)) by {
                    assert(forall|j: int| 0 <= j < pre.len() ==> pre[j] == ds[j]);
                }
                if all_hex(ds) {
                    lemma_hex_mag_prefix(ds, i - start + 1);
                    assert(hex_mag(ds) >= hex_mag(pre));
                    assert(hex_mag(pre) > max);
                }
            }
            return None;
        }
        proof {
            let k = i - start;
            assert forall|j: int| 0 <= j < k + 1 implies hex_digit_val(#[trigger] ds.take(k + 1)[j])
                >= 0 by {
                if j < k {
                    assert(ds.take(k + 1)[j] == ds.take(k)[j]);
                } else {
                    assert(ds.take(k + 1)[j] == s[i as int]);
                }
            }
        }
        acc = acc * 16 + (d as u64);
        i = i + 1;
    }
    proof {
        assert(ds.take(i - start) =~= ds);
        lemma_hex_mag_nonneg(ds);
    }
    Some(acc)
}

// ---------------------------------------------------------------------------
// Decimal digit runs and magnitudes.
// ---------------------------------------------------------------------------

pub open spec fn dec_digit_val(c: char) -> int {
    let u = c as u32;
    if 0x30 <= u && u <= 0x39 {
        u - 0x30
    } else {
        -1
    }
}

pub fn dec_digit(c: char) -> (r: i8)
    ensures
        r as int == dec_digit_val(c),
{
    let u = c as u32;
    if 0x30 <= u && u <= 0x39 {
        (u - 0x30) as i8
    } else {
        -1
    }
}

pub open spec fn all_dec(s: Seq<char>) -> bool {
    forall|i: int| 0 <= i < s.len() ==> dec_digit_val(s[i]) >= 0
}

pub open spec fn dec_mag(s: Seq<char>) -> int
    decreases s.len(),
{
    if s.len() == 0 {
        0
    } else {
        dec_mag(s.drop_last()) * 10 + dec_digit_val(s.last())
    }
}

/// Length of the leading run of decimal digits.
pub open spec fn dec_run(s: Seq<char>) -> nat
    decreases s.len(),
{
    if s.len() == 0 || dec_digit_val(s[0]) < 0 {
        0
    } else {
        1 + dec_run(s.drop_first())
    }
}

pub proof fn lemma_dec_run_le(s: Seq<char>)
    ensures
        dec_run(s) <= s.len(),
    decreases s.len(),
{
    if s.len() > 0 && dec_digit_val(s[0]) >= 0 {
        lemma_dec_run_le(s.drop_first());
    }
}

/// A prefix of digits bounds the run length from below.
pub proof fn lemma_dec_run_ge(s: Seq<char>, k: int)
    requires
        0 <= k <= s.len(),
        forall|m: int| 0 <= m < k ==> dec_digit_val(s[m]) >= 0,
    ensures
        dec_run(s) >= k,
    decreases k,
{
    if k > 0 {
        assert(dec_digit_val(s[0]) >= 0);
        let t = s.drop_first();
        assert forall|m: int| 0 <= m < k - 1 implies dec_digit_val(#[trigger] t[m]) >= 0 by {
            assert(t[m] == s[m + 1]);
        }
        lemma_dec_run_ge(t, k - 1);
    }
}

/// The run length is where the first non-digit stands (or the end).
pub proof fn lemma_dec_run_at(s: Seq<char>, k: int)
    requires
        0 <= k <= s.len(),
        forall|m: int| 0 <= m < k ==> dec_digit_val(s[m]) >= 0,
        k == s.len() || dec_digit_val(s[k]) < 0,
    ensures
        dec_run(s) == k,
    decreases s.len(),
{
    if k == 0 {
    } else {
        assert(dec_digit_val(s[0]) >= 0);
        let t = s.drop_first();
        assert forall|m: int| 0 <= m < k - 1 implies dec_digit_val(#[trigger] t[m]) >= 0 by {
            assert(t[m] == s[m + 1]);
        }
        if k < s.len() {
            assert(t[k - 1] == s[k]);
        }
        lemma_dec_run_at(t, k - 1);
    }
}

// ---------------------------------------------------------------------------
// Powers of ten.
// ---------------------------------------------------------------------------

pub open spec fn pow10(e: nat) -> int
    decreases e,
{
    if e == 0 {
        1
    } else {
        10 * pow10((e - 1) as nat)
    }
}

pub proof fn lemma_pow10_pos(e: nat)
    ensures
        pow10(e) >= 1,
    decreases e,
{
    if e > 0 {
        lemma_pow10_pos((e - 1) as nat);
    }
}

pub proof fn lemma_pow10_adds(a: nat, b: nat)
    ensures
        pow10(a + b) == pow10(a) * pow10(b),
    decreases a,
{
    if a == 0 {
    } else {
        lemma_pow10_adds((a - 1) as nat, b);
        assert(pow10(a + b) == 10 * pow10((a + b - 1) as nat));
        assert(10 * (pow10((a - 1) as nat) * pow10(b)) == (10 * pow10((a - 1) as nat)) * pow10(b))
            by (nonlinear_arith);
    }
}

/// `10^e` for the exponent range of scaling values.
pub fn pow10_i128(e: u32) -> (r: i128)
    requires
        e <= 15,
    ensures
        r == pow10(e as nat),
        1 <= r <= 1000000000000000,
{
    proof {
        reveal_with_fuel(pow10, 17);
    }
    if e == 0 {
        1
    } else if e == 1 {
        10
    } else if e == 2 {
        100
    } else if e == 3 {
        1000
    } else if e == 4 {
        10000
    } else if e == 5 {
        100000
    } else if e == 6 {
        1000000
    } else if e == 7 {
        10000000
    } else if e == 8 {
        100000000
    } else if e == 9 {
        1000000000
    } else if e == 10 {
        10000000000
    } else if e == 11 {
        100000000000
    } else if e == 12 {
        1000000000000
    } else if e == 13 {
        10000000000000
    } else if e == 14 {
        100000000000000
    } else {
        1000000000000000
    }
}

/// A run of digits is bounded by ten to its length.
pub proof fn lemma_dec_mag_bound(s: Seq<char>)
    requires
        all_dec(s),
    ensures
        dec_mag(s) < pow10(s.len()),
        dec_mag(s) >= 0,
    decreases s.len(),
{
    if s.len() == 0 {
        reveal_with_fuel(pow10, 1);
    } else {
        assert(all_dec(s.drop_last()));
        lemma_dec_mag_bound(s.drop_last());
        assert(pow10(s.len()) == 10 * pow10((s.len() - 1) as nat));
    }
}

/// Splitting a digit run splits its magnitude positionally.
pub proof fn lemma_dec_mag_split(s: Seq<char>, k: int)
    requires
        0 <= k <= s.len(),
    ensures
        dec_mag(s) == dec_mag(s.take(k)) * pow10((s.len() - k) as nat) + dec_mag(s.skip(k)),
    decreases s.len(),
{
    if k == s.len() {
        assert(s.take(k) =~= s);
        assert(s.skip(k) =~= Seq::<char>::empty());
        reveal_with_fuel(pow10, 1);
    } else {
        let dl = s.drop_last();
        lemma_dec_mag_split(dl, k);
        assert(dl.take(k) =~= s.take(k));
        assert(dl.skip(k) =~= s.skip(k).drop_last());
        assert(s.skip(k).last() == s.last());
        let ma = dec_mag(s.take(k));
        let p = pow10((dl.len() - k) as nat);
        assert(pow10((s.len() - k) as nat) == 10 * p);
        assert((ma * p) * 10 == ma * (10 * p)) by (nonlinear_arith);
    }
}

// ---------------------------------------------------------------------------
// Decimal rendering of unsigned values.
// ---------------------------------------------------------------------------

/// The decimal digit character for a value in 0..10.
pub open spec fn dec_digit_char(d: int) -> char {
    ((d + 0x30) as u8) as char
}

/// Decimal string of a non-negative integer, most significant digit first.
pub open spec fn dec_str(n: int) -> Seq<char>
    decreases n,
{
    if n < 10 {
        seq![dec_digit_char(if n >= 0 {
            n
        } else {
            0
        })]
    } else {
        dec_str(n / 10) + seq![dec_digit_char(n % 10)]
    }
}

fn dec_digit_char_exec(d: u8) -> (r: char)
    requires
        d < 10,
    ensures
        r == dec_digit_char(d as int),
{
    (d + 0x30) as char
}

/// Appends the decimal form of `n` onto `out`.
pub fn append_u128(out: &mut String, n: u128)
    ensures
        final(out)@ == old(out)@ + dec_str(n as int),
{
    let mut rev: Vec<char> = Vec::new();
    let mut x: u128 = n;
    loop
        invariant_except_break
            dec_str(n as int) == dec_str(x as int) + rev@.reverse(),
        ensures
            dec_str(n as int) == rev@.reverse(),
        decreases x,
    {
        let d = dec_digit_char_exec((x % 10) as u8);
        proof {
            assert(rev@.push(d).reverse() =~= seq![d] + rev@.reverse());
        }
        if x < 10 {
            proof {
                assert(dec_str(x as int) == seq![d]);
            }
            rev.push(d);
            break;
        }
        proof {
            assert(dec_str(x as int) == dec_str(x as int / 10) + seq![d]);
            assert(dec_str(x as int / 10) + (seq![d] + rev@.reverse()) =~= (dec_str(x as int / 10)
                + seq![d]) + rev@.reverse());
        }
        rev.push(d);
        x = x / 10;
    }
    let ghost base = out@;
    let mut i: usize = rev.len();
    while i > 0
        invariant
            i <= rev.len(),
            out@ == base + rev@.skip(i as int).reverse(),
        decreases i,
    {
        i = i - 1;
        out.push(rev[i]);
        proof {
            assert(rev@.skip(i as int).reverse() =~= rev@.skip(i as int + 1).reverse().push(
                rev@[i as int]));
            assert(base + rev@.skip(i as int + 1).reverse() + seq![rev@[i as int]] =~= base
                + rev@.skip(i as int).reverse());
        }
    }
    proof {
        assert(rev@.skip(0) =~= rev@);
    }
}

/// Renders a non-negative value in decimal.
pub fn u128_to_string(n: u128) -> (r: String)
    ensures
        r@ == dec_str(n as int),
{
    let mut r = String::new();
    append_u128(&mut r, n);
    proof {
        assert(Seq::<char>::empty() + dec_str(n as int) =~= dec_str(n as int));
    }
    r
}

// ---------------------------------------------------------------------------
// Hexadecimal rendering (uppercase), with zero padding to a minimum width.
// ---------------------------------------------------------------------------

/// The uppercase hex digit character for a value in 0..16.
pub open spec fn hex_digit_char(d: int) -> char {
    if d < 10 {
        ((d + 0x30) as u8) as char
    } else {
        ((d - 10 + 0x41) as u8) as char
    }
}

/// Uppercase hex string of a non-negative integer, most significant first.
pub open spec fn hex_str(n: int) -> Seq<char>
    decreases n,
{
    if n < 16 {
        seq![hex_digit_char(if n >= 0 {
            n
        } else {
            0
        })]
    } else {
        hex_str(n / 16) + seq![hex_digit_char(n % 16)]
    }
}

pub open spec fn seq_repeat(c: char, n: int) -> Seq<char> {
    Seq::new(
        if n >= 0 {
            n as nat
        } else {
            0
        },
        |i: int| c,
    )
}

/// `s` left-padded with `'0'` up to width `w`.
pub open spec fn zero_pad(s: Seq<char>, w: int) -> Seq<char> {
    if s.len() >= w {
        s
    } else {
        seq_repeat('0', w - s.len()) + s
    }
}

fn hex_digit_char_exec(d: u8) -> (r: char)
    requires
        d < 16,
    ensures
        r == hex_digit_char(d as int),
{
    if d < 10 {
        (d + 0x30) as char
    } else {
        (d - 10 + 0x41) as char
    }
}

/// Appends the uppercase hex form of `n`, zero-padded to at least `width`
/// digits, onto `out`.
pub fn append_hex_padded(out: &mut String, n: u32, width: usize)
    ensures
        final(out)@ == old(out)@ + zero_pad(hex_str(n as int), width as int),
{
    let mut rev: Vec<char> = Vec::new();
    let mut x: u32 = n;
    loop
        invariant_except_break
            hex_str(n as int) == hex_str(x as int) + rev@.reverse(),
        ensures
            hex_str(n as int) == rev@.reverse(),
        decreases x,
    {
        let d = hex_digit_char_exec((x % 16) as u8);
        proof {
            assert(rev@.push(d).reverse() =~= seq![d] + rev@.reverse());
        }
        if x < 16 {
            proof {
                assert(hex_str(x as int) == seq![d]);
            }
            rev.push(d);
            break;
        }
        proof {
            assert(hex_str(x as int) == hex_str(x as int / 16) + seq![d]);
            assert(hex_str(x as int / 16) + (seq![d] + rev@.reverse()) =~= (hex_str(x as int / 16)
                + seq![d]) + rev@.reverse());
        }
        rev.push(d);
        x = x / 16;
    }
    let digits: usize = rev.len();
    let mut pad: usize = 0;
    if digits < width {
        pad = width - digits;
    }
    let ghost base = out@;
    let mut p: usize = 0;
    while p < pad
        invariant
            p <= pad,
            out@ == base + seq_repeat('0', p as int),
        decreases pad - p,
    {
        out.push('0');
        p = p + 1;
        proof {
            assert(base + seq_repeat('0', p - 1) + seq!['0'] =~= base + seq_repeat('0', p as int));
        }
    }
    let ghost mid = out@;
    let mut i: usize = rev.len();
    while i > 0
        invariant
            i <= rev.len(),
            out@ == mid + rev@.skip(i as int).reverse(),
        decreases i,
    {
        i = i - 1;
        out.push(rev[i]);
        proof {
            assert(rev@.skip(i as int).reverse() =~= rev@.skip(i as int + 1).reverse().push(
                rev@[i as int]));
            assert(mid + rev@.skip(i as int + 1).reverse() + seq![rev@[i as int]] =~= mid
                + rev@.skip(i as int).reverse());
        }
    }
    proof {
        assert(rev@.skip(0) =~= rev@);
        assert(out@ == base + seq_repeat('0', pad as int) + hex_str(n as int));
        if digits < width {
            assert(hex_str(n as int).len() == digits) by {
                assert(rev@.reverse().len() == rev@.len());
            }
            assert(zero_pad(hex_str(n as int), width as int) == seq_repeat('0', pad as int)
                + hex_str(n as int));
            assert(base + seq_repeat('0', pad as int) + hex_str(n as int) =~= base + (seq_repeat(
                '0',
                pad as int,
            ) + hex_str(n as int)));
        } else {
            assert(hex_str(n as int).len() == digits) by {
                assert(rev@.reverse().len() == rev@.len());
            }
            assert(seq_repeat('0', 0) =~= Seq::<char>::empty());
            assert(base + seq_repeat('0', 0) =~= base);
            assert(zero_pad(hex_str(n as int), width as int) == hex_str(n as int));
        }
    }
}

} // verus!
