//! Parser for the family of text-based trace-file dialects: reconstructs
//! timestamped frames from trace lines.
//!
//! A trace begins with zero or more `;$KEY=VALUE` directive lines;
//! `;$FILEVERSION` selects one of five dialects and `;$COLUMNS` (newer
//! dialects only) declares the column roles, which shift the identifier and
//! data-length columns. Every other line starting with `;` is a comment.
//! Data rows are whitespace-tokenized; the whole layout per dialect, the
//! skip conditions and the error conditions are given by the functional
//! model `parse_trace` below, which the parser provably implements.

use crate::numtext::{
    all_dec, dec_digit, dec_digit_val, dec_mag, dec_run, lemma_dec_mag_bound, lemma_dec_mag_split,
    lemma_dec_run_at, lemma_pow10_adds, lemma_pow10_pos, pow10, pow10_i128, spec_parse_hex,
    token_digits, token_negative, parse_hex_bounded, chars_of,
};
use crate::tokens::{
    contains_char, eq_str, has_char, split_chars, split_on, split_text_lines, tokenize, tokens_of,
};
use crate::{FrameModel, Packet};
use vstd::prelude::*;

verus! {

/// The trace-file dialect, as named by the `;$FILEVERSION` directive.
/// Without the directive a file is read as the oldest dialect.
#[derive(Clone, Copy, Debug, PartialEq, Eq, Structural)]
pub enum TrcVersion {
    V1_0,
    V1_1,
    V1_3,
    V2_0,
    V2_1,
}

/// Why a trace could not be parsed. Directive errors and malformed data
/// rows abort the whole parse; the enumerated skip conditions do not.
#[derive(Clone, Copy, Debug, PartialEq, Eq, Structural)]
pub enum TrcError {
    /// A `;$KEY=VALUE` line without a `=`.
    InvalidDirective,
    /// A `;$FILEVERSION` value naming no known dialect.
    UnknownVersion,
    /// A data row with too few columns for its dialect.
    MissingColumn,
    /// A time-offset column that does not parse.
    BadTime,
    /// An identifier column that is not hexadecimal.
    BadId,
    /// A data-length column that is not hexadecimal.
    BadLength,
}

/// The parser state carried across lines.
#[verifier::ext_equal]
pub ghost struct ParseState {
    pub version: TrcVersion,
    pub columns: Seq<char>,
    pub first_time: Option<u64>,
    pub frames: Seq<FrameModel>,
}

pub open spec fn init_state() -> ParseState {
    ParseState {
        version: TrcVersion::V1_0,
        columns: Seq::empty(),
        first_time: None,
        frames: Seq::empty(),
    }
}

// ---------------------------------------------------------------------------
// Time-offset parsing.
//
// The oldest dialect writes its time offset as a hexadecimal count of
// milliseconds; all later dialects write a decimal, possibly fractional,
// millisecond count. Both scale to nanoseconds — the fraction exactly — and
// saturate at the top of the 64-bit range. A float parse would also accept
// exponent and infinity forms; those are rejected here as malformed time
// columns.
// ---------------------------------------------------------------------------

/// The non-negative nanosecond value of a decimal millisecond token: an
/// optional sign, digits with at most one decimal point, at least one digit
/// in all. The fraction scales exactly into nanoseconds (a digit beyond the
/// sixth decimal place is below one nanosecond and truncates); a negative
/// value clamps to zero and the result saturates at the top of the 64-bit
/// range.
pub open spec fn spec_ms_token_ns(s: Seq<char>) -> Option<int> {
    let ds = token_digits(s);
    let k = dec_run(ds) as int;
    let valid = if k == ds.len() {
        k >= 1
    } else {
        ds[k] == '.' && all_dec(ds.skip(k + 1)) && ds.len() >= 2
    };
    if !valid {
        None
    } else if token_negative(s) {
        Some(0)
    } else {
        let ip = dec_mag(ds.take(k));
        let fns = if k == ds.len() {
            0int
        } else {
            dec_mag(ds.skip(k + 1)) * 1000000 / pow10((ds.len() - k - 1) as nat)
        };
        let ns = ip * 1000000 + fns;
        Some(
            if ns > u64::MAX {
                u64::MAX as int
            } else {
                ns
            },
        )
    }
}

/// Milliseconds to nanoseconds, saturating.
pub open spec fn sat_mul_1m(v: int) -> u64
    recommends
        v >= 0,
{
    if v * 1000000 > u64::MAX as int {
        u64::MAX
    } else {
        (v * 1000000) as u64
    }
}

/// The nanosecond time offset of a time token, by dialect numeric base.
pub open spec fn spec_time_ns(tok: Seq<char>, hex_time: bool) -> Option<u64> {
    if hex_time {
        match spec_parse_hex(tok, u64::MAX as int) {
            Some(v) => Some(sat_mul_1m(v)),
            None => None,
        }
    } else {
        match spec_ms_token_ns(tok) {
            Some(v) => Some(v as u64),
            None => None,
        }
    }
}

/// Parses a decimal millisecond token into nanoseconds.
#[verifier::rlimit(100)]
fn parse_ms_token(tok: &Vec<char>) -> (r: Option<u64>)
    ensures
        match r {
            Some(v) => spec_ms_token_ns(tok@) == Some(v as int),
            None => spec_ms_token_ns(tok@) is None,
        },
{
    let ghost s = tok@;
    let mut i: usize = 0;
    let mut neg: bool = false;
    if tok.len() > 0 && (tok[0] == '+' || tok[0] == '-') {
        neg = tok[0] == '-';
        i = 1;
    }
    proof {
        assert(token_digits(s) =~= s.skip(i as int));
        assert(neg == token_negative(s));
    }
    let ghost ds = token_digits(s);
    let start: usize = i;
    let mut ip: u64 = 0;
    let mut sat: bool = false;
    loop
        invariant_except_break
            start <= i <= tok.len(),
            s == tok@,
            ds == token_digits(s),
            ds =~= s.skip(start as int),
            forall|m: int| 0 <= m < i - start ==> dec_digit_val(ds[m]) >= 0,
            !sat ==> ip as int == dec_mag(ds.take(i - start)),
            sat ==> dec_mag(ds.take(i - start)) > u64::MAX as int,
        ensures
            start <= i <= tok.len(),
            s == tok@,
            ds == token_digits(s),
            ds =~= s.skip(start as int),
            forall|m: int| 0 <= m < i - start ==> dec_digit_val(ds[m]) >= 0,
            !sat ==> ip as int == dec_mag(ds.take(i - start)),
            sat ==> dec_mag(ds.take(i - start)) > u64::MAX as int,
            i == tok.len() || dec_digit_val(s[i as int]) < 0,
        decreases tok.len() - i,
    {
        if i == tok.len() {
            break;
        }
        let d = dec_digit(tok[i]);
        if d < 0 {
            break;
        }
        proof {
            let k = i - start;
            assert(ds.take(k + 1).drop_last() =~= ds.take(k));
            assert(ds.take(k + 1).last() == ds[k] == s[i as int]);
            assert(dec_mag(ds.take(k + 1)) == dec_mag(ds.take(k)) * 10 + d);
        }
        if !sat {
            if ip > (u64::MAX - (d as u64)) / 10 {
                sat = true;
            } else {
                ip = ip * 10 + (d as u64);
            }
        }
        i = i + 1;
    }
    let ghost k = i - start;
    proof {
        lemma_dec_run_at(ds, k);
    }
    // validity of the token shape
    if i == start && i >= tok.len() {
        // no digits and no fraction
        proof {
            assert(ds.len() == 0);
        }
        return None;
    }
    let mut fns: u64 = 0;
    let mut fd: usize = 0;
    if i < tok.len() {
        proof {
            assert(ds[k] == s[i as int]);
        }
        if tok[i] != '.' {
            return None;
        }
        if tok.len() - start < 2 {
            proof {
                assert(ds.len() < 2);
            }
            return None;
        }
        // fraction digits; the first six carry nanosecond weight
        let mut j: usize = i + 1;
        while j < tok.len()
            invariant
                start <= i < tok.len(),
                i + 1 <= j <= tok.len(),
                s == tok@,
                k == i - start,
                ds == token_digits(s),
                ds =~= s.skip(start as int),
                dec_run(ds) == k,
                ds[k] == '.',
                ds.len() >= 2,
                fd as int == (if j - i - 1 <= 6 {
                    j - i - 1
                } else {
                    6int
                }),
                fns as int == dec_mag(s.subrange(i as int + 1, i as int + 1 + fd as int)),
                (fns as int) < pow10(fd as nat),
                forall|m: int| i + 1 <= m < j ==> dec_digit_val(s[m]) >= 0,
            decreases tok.len() - j,
        {
            let d = dec_digit(tok[j]);
            if d < 0 {
                proof {
                    assert(ds.skip(k + 1)[j - start - k - 1] == s[j as int]);
                    assert(!all_dec(ds.skip(k + 1)));
                }
                return None;
            }
            if fd < 6 {
                proof {
                    let pre = s.subrange(i as int + 1, i as int + 1 + fd as int);
                    let nxt = s.subrange(i as int + 1, i as int + 2 + fd as int);
                    assert(nxt.drop_last() =~= pre);
                    assert(nxt.last() == s[j as int]);
                    assert(all_dec(nxt)) by {
                        assert(forall|m: int|
                            0 <= m < nxt.len() ==> dec_digit_val(#[trigger] nxt[m])
                                == dec_digit_val(s[i + 1 + m]));
                    }
                    lemma_dec_mag_bound(nxt);
                    reveal_with_fuel(pow10, 8);
                }
                fns = fns * 10 + (d as u64);
                fd = fd + 1;
            }
            j = j + 1;
        }
        proof {
            assert forall|m: int| 0 <= m < ds.skip(k + 1).len() implies dec_digit_val(
                #[trigger] ds.skip(k + 1)[m],
            ) >= 0 by {
                assert(ds.skip(k + 1)[m] == s[start + k + 1 + m]);
            }
            assert(all_dec(ds.skip(k + 1)));
        }
        // scale the fraction exactly to nanoseconds
        let ghost frac = ds.skip(k + 1);
        let ghost e = frac.len() as int;
        proof {
            assert(frac =~= s.subrange(i as int + 1, tok.len() as int));
            assert(e == tok.len() - i - 1);
        }
        if fd < 6 {
            let scale128 = pow10_i128((6 - fd) as u32);
            proof {
                reveal_with_fuel(pow10, 8);
                assert(scale128 <= 1000000);
                lemma_mul_lt(fns as int, pow10(fd as nat), scale128 as int);
                lemma_pow10_adds(fd as nat, (6 - fd) as nat);
            }
            let scale = scale128 as u64;
            fns = fns * scale;
            proof {
                // the whole fraction was folded in: exact scaling
                assert(fd as int == e);
                assert(s.subrange(i as int + 1, i as int + 1 + fd as int) =~= frac);
                let m = dec_mag(frac);
                lemma_dec_mag_bound(frac);
                assert(m * 1000000 == (m * pow10((6 - fd) as nat)) * pow10(e as nat)) by {
                    reveal_with_fuel(pow10, 8);
                    lemma_pow10_adds((6 - fd) as nat, fd as nat);
                    assert(pow10(6) == 1000000);
                    assert(m * 1000000 == m * (pow10((6 - fd) as nat) * pow10(fd as nat)));
                    lemma_mul_shuffle(m, pow10((6 - fd) as nat), pow10(fd as nat));
                }
                lemma_pow10_pos(e as nat);
                vstd::arithmetic::div_mod::lemma_fundamental_div_mod_converse(
                    m * 1000000,
                    pow10(e as nat),
                    m * pow10((6 - fd) as nat),
                    0,
                );
                assert(fns as int == m * 1000000 / pow10(e as nat));
            }
        } else {
            proof {
                // only the first six fraction digits reach nanosecond weight
                assert(fd == 6);
                assert(e >= 6);
                assert(s.subrange(i as int + 1, i as int + 7) =~= frac.take(6));
                lemma_dec_mag_split(frac, 6);
                let m6 = dec_mag(frac.take(6));
                let rest = dec_mag(frac.skip(6));
                let p = pow10((e - 6) as nat);
                assert(all_dec(frac.skip(6))) by {
                    assert(forall|m: int|
                        0 <= m < frac.skip(6).len() ==> dec_digit_val(#[trigger] frac.skip(6)[m])
                            == dec_digit_val(frac[m + 6]));
                }
                lemma_dec_mag_bound(frac.skip(6));
                lemma_pow10_pos((e - 6) as nat);
                lemma_pow10_adds((e - 6) as nat, 6);
                reveal_with_fuel(pow10, 8);
                assert(pow10(e as nat) == p * 1000000);
                assert(dec_mag(frac) * 1000000 == m6 * (p * 1000000) + rest * 1000000) by {
                    assert(dec_mag(frac) == m6 * p + rest);
                    lemma_mul_shuffle(m6, p, 1000000);
                    assert((m6 * p + rest) * 1000000 == (m6 * p) * 1000000 + rest * 1000000)
                        by (nonlinear_arith);
                }
                vstd::arithmetic::div_mod::lemma_fundamental_div_mod_converse(
                    dec_mag(frac) * 1000000,
                    p * 1000000,
                    m6,
                    rest * 1000000,
                );
                assert(fns as int == dec_mag(frac) * 1000000 / pow10(e as nat));
            }
        }
    } else {
        proof {
            assert(k == ds.len());
            assert(k >= 1);
        }
    }
    if neg {
        return Some(0);
    }
    if sat {
        proof {
            let ipv = dec_mag(ds.take(k));
            let fnsv: int = if k == ds.len() {
                0int
            } else {
                dec_mag(ds.skip(k + 1)) * 1000000 / pow10((ds.len() - k - 1) as nat)
            };
            if k < ds.len() {
                lemma_dec_mag_bound(ds.skip(k + 1));
                lemma_pow10_pos((ds.len() - k - 1) as nat);
                vstd::arithmetic::div_mod::lemma_div_pos_is_pos(
                    dec_mag(ds.skip(k + 1)) * 1000000,
                    pow10((ds.len() - k - 1) as nat),
                );
            }
            assert(fnsv >= 0);
            assert(ipv * 1000000 + fnsv > u64::MAX as int);
        }
        return Some(u64::MAX);
    }
    let ns: u128 = (ip as u128) * 1000000 + (fns as u128);
    proof {
        assert(ns as int == dec_mag(ds.take(k)) * 1000000 + fns);
    }
    if ns > u64::MAX as u128 {
        Some(u64::MAX)
    } else {
        Some(ns as u64)
    }
}

/// A value below one bound times a value at most another stays below the
/// product of the bounds.
proof fn lemma_mul_lt(a: int, ca: int, b: int)
    by (nonlinear_arith)
    requires
        0 <= a < ca,
        1 <= b,
    ensures
        a * b < ca * b,
        a * b >= 0,
{
}

proof fn lemma_mul_shuffle(a: int, b: int, c: int)
    by (nonlinear_arith)
    ensures
        (a * b) * c == a * (b * c),
        (a * b) * c == (a * c) * b,
{
}

/// Parses one time-offset token into nanoseconds.
fn parse_time(tok: &Vec<char>, hex_time: bool) -> (r: Option<u64>)
    ensures
        r == spec_time_ns(tok@, hex_time),
{
    if hex_time {
        match parse_hex_bounded(tok, u64::MAX) {
            None => None,
            Some(v) => {
                if v > u64::MAX / 1000000 {
                    proof {
                        assert(v as int * 1000000 > u64::MAX as int);
                    }
                    Some(u64::MAX)
                } else {
                    proof {
                        assert(v as int * 1000000 <= u64::MAX as int);
                    }
                    Some(v * 1000000)
                }
            },
        }
    } else {
        parse_ms_token(tok)
    }
}

// ---------------------------------------------------------------------------
// The line-by-line parse model.
// ---------------------------------------------------------------------------

pub open spec fn starts_with(s: Seq<char>, p: Seq<char>) -> bool {
    s.len() >= p.len() && s.take(p.len() as int) == p
}

/// Which dialect a `;$FILEVERSION` value names.
pub open spec fn version_of(value: Seq<char>) -> Option<TrcVersion> {
    if value == "1.0"@ {
        Some(TrcVersion::V1_0)
    } else if value == "1.1"@ {
        Some(TrcVersion::V1_1)
    } else if value == "1.3"@ {
        Some(TrcVersion::V1_3)
    } else if value == "2.0"@ {
        Some(TrcVersion::V2_0)
    } else if value == "2.1"@ {
        Some(TrcVersion::V2_1)
    } else {
        None
    }
}

/// Effect of one `;$KEY=VALUE` directive line.
pub open spec fn directive_step(st: ParseState, line: Seq<char>) -> Result<ParseState, TrcError> {
    let segs = split_on(line, '=');
    if segs.len() < 2 {
        Err(TrcError::InvalidDirective)
    } else if segs[0] == ";$FILEVERSION"@ {
        match version_of(segs[1]) {
            Some(v) => Ok(ParseState { version: v, ..st }),
            None => Err(TrcError::UnknownVersion),
        }
    } else if segs[0] == ";$COLUMNS"@ {
        Ok(ParseState { columns: segs[1], ..st })
    } else {
        Ok(st)
    }
}

/// The identifier column of a data row, by dialect; for the newer dialects
/// the declared presence of a bus-id role shifts it.
pub open spec fn id_col_of(v: TrcVersion, columns: Seq<char>) -> int {
    match v {
        TrcVersion::V1_0 => 2,
        TrcVersion::V1_1 => 3,
        TrcVersion::V1_3 => 4,
        TrcVersion::V2_0 | TrcVersion::V2_1 => if has_char(columns, 'B') {
            4
        } else {
            3
        },
    }
}

/// The data-length column of a data row, by dialect; for the newer dialects
/// the bus-id and reserved-field roles each shift it.
pub open spec fn dlc_col_of(v: TrcVersion, columns: Seq<char>) -> int {
    match v {
        TrcVersion::V1_0 => 3,
        TrcVersion::V1_1 => 4,
        TrcVersion::V1_3 => 6,
        TrcVersion::V2_0 | TrcVersion::V2_1 => {
            let b = has_char(columns, 'B');
            let r = has_char(columns, 'R');
            if !b && !r {
                5
            } else if b && r {
                7
            } else {
                6
            }
        },
    }
}

/// Wrapping 64-bit subtraction, for origin-relative timestamps.
pub open spec fn wsub64(a: u64, b: u64) -> u64 {
    if a >= b {
        (a - b) as u64
    } else {
        (a - b + 0x1_0000_0000_0000_0000) as u64
    }
}

/// The emitted timestamp and the new first-time reference: the first parsed
/// time on the stream becomes the zero reference when synchronizing.
pub open spec fn apply_sync(t: u64, first: Option<u64>, sync: bool) -> (u64, Option<u64>) {
    match first {
        None => (
            if sync {
                0u64
            } else {
                t
            },
            Some(t),
        ),
        Some(t0) => (
            if sync {
                wsub64(t, t0)
            } else {
                t
            },
            Some(t0),
        ),
    }
}

/// A malformed data byte reads as zero; the row is kept.
pub open spec fn byte_or_zero(tok: Seq<char>) -> u8 {
    match spec_parse_hex(tok, 255) {
        Some(v) => v as u8,
        None => 0,
    }
}

/// Effect of one whitespace-tokenized data row on the parse state: skip, a
/// new frame, or a hard error.
pub open spec fn row_step(st: ParseState, cols: Seq<Seq<char>>, source: int, sync: bool) -> Result<
    ParseState,
    TrcError,
> {
    let hex_time = st.version is V1_0;
    let id_col = id_col_of(st.version, st.columns);
    let dlc_col = dlc_col_of(st.version, st.columns);
    let two_x = st.version is V2_0 || st.version is V2_1;
    if two_x && (cols.len() < 6 || (dlc_col + 1 < cols.len() && cols[dlc_col + 1] == "RTR"@) || !(
    cols[2] == "DT"@ || cols[2] == "FD"@)) {
        Ok(st)
    } else {
        row_tail_step(st, cols, id_col, dlc_col, hex_time, source, sync)
    }
}

/// The dialect-independent tail of a data row: time, identifier, length,
/// data bytes.
pub open spec fn row_tail_step(
    st: ParseState,
    cols: Seq<Seq<char>>,
    id_col: int,
    dlc_col: int,
    hex_time: bool,
    source: int,
    sync: bool,
) -> Result<ParseState, TrcError> {
    if cols.len() < 2 {
        Err(TrcError::MissingColumn)
    } else {
        match spec_time_ns(cols[1], hex_time) {
            None => Err(TrcError::BadTime),
            Some(tf) => {
                let pair = apply_sync(tf, st.first_time, sync);
                let st1 = ParseState { first_time: pair.1, ..st };
                if cols.len() <= id_col {
                    Err(TrcError::MissingColumn)
                } else {
                    match spec_parse_hex(cols[id_col], u32::MAX as int) {
                        None => Err(TrcError::BadId),
                        Some(id) => {
                            if id == 0xFFFF_FFFF {
                                Ok(st1)
                            } else if cols.len() <= dlc_col {
                                Err(TrcError::MissingColumn)
                            } else {
                                match spec_parse_hex(cols[dlc_col], usize::MAX as int) {
                                    None => Err(TrcError::BadLength),
                                    Some(dlc) => {
                                        let data_col = dlc_col + 1;
                                        if cols.len() < data_col + dlc || (dlc > 0 && cols[data_col]
                                            == "RTR"@) {
                                            Ok(st1)
                                        } else {
                                            let fm = FrameModel {
                                                source,
                                                time: Some(pair.0),
                                                extended: cols[id_col].len() > 4,
                                                id: id as u32,
                                                bytes: Seq::new(
                                                    dlc as nat,
                                                    |x: int| byte_or_zero(cols[data_col + x]),
                                                ),
                                            };
                                            Ok(ParseState { frames: st1.frames.push(fm), ..st1 })
                                        }
                                    },
                                }
                            }
                        },
                    }
                }
            },
        }
    }
}

/// Effect of one line: directive, comment, blank, or data row.
pub open spec fn parse_step(st: ParseState, line: Seq<char>, source: int, sync: bool) -> Result<
    ParseState,
    TrcError,
> {
    if starts_with(line, ";$"@) {
        directive_step(st, line)
    } else if line.len() > 0 && line[0] == ';' {
        Ok(st)
    } else {
        let cols = tokens_of(line);
        if cols.len() == 0 {
            Ok(st)
        } else {
            row_step(st, cols, source, sync)
        }
    }
}

/// Runs the parse from line `k` onward.
pub open spec fn run_from(
    lines: Seq<Seq<char>>,
    k: int,
    st: ParseState,
    source: int,
    sync: bool,
) -> Result<ParseState, TrcError>
    decreases lines.len() - k,
{
    if k < 0 || k >= lines.len() {
        Ok(st)
    } else {
        match parse_step(st, lines[k], source, sync) {
            Err(e) => Err(e),
            Ok(st2) => run_from(lines, k + 1, st2, source, sync),
        }
    }
}

/// The full functional model of a trace parse.
pub open spec fn parse_trace(lines: Seq<Seq<char>>, source: int, sync: bool) -> Result<
    ParseState,
    TrcError,
> {
    run_from(lines, 0, init_state(), source, sync)
}

// ---------------------------------------------------------------------------
// The executable parser.
// ---------------------------------------------------------------------------

/// The frames a sequence of packets stands for.
pub open spec fn frames_of(packets: Seq<Packet>) -> Seq<FrameModel> {
    packets.map_values(|p: Packet| p@)
}

/// A parsed trace: the reconstructed frames, in file order, and the dialect
/// that was read.
pub struct TrcParser {
    pub packets: Vec<Packet>,
    pub version: TrcVersion,
}

/// Runs the common row tail on the current parse state, updating the
/// first-time reference and appending at most one frame.
fn row_tail(
    cols: &Vec<Vec<char>>,
    id_col: usize,
    dlc_col: usize,
    hex_time: bool,
    index: usize,
    sync: bool,
    first_time: &mut Option<u64>,
    packets: &mut Vec<Packet>,
    Ghost(st): Ghost<ParseState>,
) -> (r: Result<(), TrcError>)
    requires
        dlc_col <= 7,
        id_col <= 7,
        st.first_time == *old(first_time),
        st.frames == frames_of(old(packets)@),
    ensures
        match r {
            Ok(_) => row_tail_step(
                st,
                cols.deep_view(),
                id_col as int,
                dlc_col as int,
                hex_time,
                index as int,
                sync,
            ) == Ok::<ParseState, TrcError>(
                ParseState {
                    first_time: *final(first_time),
                    frames: frames_of(final(packets)@),
                    ..st
                },
            ),
            Err(e) => row_tail_step(
                st,
                cols.deep_view(),
                id_col as int,
                dlc_col as int,
                hex_time,
                index as int,
                sync,
            ) == Err::<ParseState, TrcError>(e),
        },
{
    let ghost colm = cols.deep_view();
    if cols.len() < 2 {
        return Err(TrcError::MissingColumn);
    }
    proof {
        assert(colm[1] == cols@[1]@);
    }
    let tf = match parse_time(&cols[1], hex_time) {
        None => {
            return Err(TrcError::BadTime);
        },
        Some(t) => t,
    };
    let t_emit: u64;
    match *first_time {
        None => {
            *first_time = Some(tf);
            t_emit = if sync {
                0
            } else {
                tf
            };
        },
        Some(t0) => {
            t_emit = if sync {
                if tf >= t0 {
                    tf - t0
                } else {
                    (u64::MAX - t0) + tf + 1
                }
            } else {
                tf
            };
        },
    }
    proof {
        let pair = apply_sync(tf, st.first_time, sync);
        assert(t_emit == pair.0);
        assert(*first_time == pair.1);
    }
    if cols.len() <= id_col {
        return Err(TrcError::MissingColumn);
    }
    proof {
        assert(colm[id_col as int] == cols@[id_col as int]@);
    }
    let id: u32 = match parse_hex_bounded(&cols[id_col], 0xFFFF_FFFFu64) {
        None => {
            return Err(TrcError::BadId);
        },
        Some(v) => v as u32,
    };
    if id == 0xFFFF_FFFFu32 {
        return Ok(());
    }
    if cols.len() <= dlc_col {
        return Err(TrcError::MissingColumn);
    }
    proof {
        assert(colm[dlc_col as int] == cols@[dlc_col as int]@);
    }
    let dlc: usize = match parse_hex_bounded(&cols[dlc_col], usize::MAX as u64) {
        None => {
            return Err(TrcError::BadLength);
        },
        Some(v) => v as usize,
    };
    let data_col = dlc_col + 1;
    if dlc > cols.len() || cols.len() - dlc < data_col {
        proof {
            assert(colm.len() < data_col + dlc);
        }
        return Ok(());
    }
    proof {
        assert(colm.len() >= data_col + dlc);
    }
    if dlc > 0 && eq_str(&cols[data_col], "RTR") {
        proof {
            assert(colm[data_col as int] == cols@[data_col as int]@);
        }
        return Ok(());
    }
    proof {
        if dlc > 0 {
            assert(colm[data_col as int] == cols@[data_col as int]@);
        }
    }
    let mut bytes: Vec<u8> = Vec::new();
    let mut bi: usize = 0;
    proof {
        assert(bytes@ =~= Seq::new(0, |x: int| byte_or_zero(colm[data_col + x])));
    }
    while bi < dlc
        invariant
            bi <= dlc,
            data_col + dlc <= cols.len(),
            colm == cols.deep_view(),
            bytes@ == Seq::new(bi as nat, |x: int| byte_or_zero(colm[data_col + x])),
        decreases dlc - bi,
    {
        let b: u8 = match parse_hex_bounded(&cols[data_col + bi], 255) {
            Some(v) => v as u8,
            None => 0,
        };
        proof {
            assert(colm[data_col + bi] == cols@[data_col + bi]@);
            assert(b == byte_or_zero(colm[data_col + bi]));
        }
        bytes.push(b);
        bi = bi + 1;
        proof {
            assert(bytes@ =~= Seq::new(bi as nat, |x: int| byte_or_zero(colm[data_col + x])));
        }
    }
    let extended = cols[id_col].len() > 4;
    let packet = Packet { source: index, time: Some(t_emit), extended, id, bytes };
    let ghost pm = packet@;
    let ghost old_frames = frames_of(packets@);
    packets.push(packet);
    proof {
        let pair = apply_sync(tf, st.first_time, sync);
        let fm = FrameModel {
            source: index as int,
            time: Some(pair.0),
            extended: colm[id_col as int].len() > 4,
            id: id,
            bytes: Seq::new(dlc as nat, |x: int| byte_or_zero(colm[data_col + x])),
        };
        assert(colm[id_col as int].len() == cols@[id_col as int]@.len());
        assert(pm =~= fm);
        assert(frames_of(packets@) =~= old_frames.push(pm));
    }
    Ok(())
}

impl TrcParser {
    /// Parses the lines of a trace file into frames tagged with the given
    /// channel index. With `sync_time` the first parsed time offset becomes
    /// the zero reference for every emitted timestamp; without it the
    /// file-relative offsets pass through. The result and every error case
    /// are exactly those of the functional model `parse_trace`.
    pub fn new_from_lines(lines: Vec<String>, index: usize, sync_time: bool) -> (r: Result<
        TrcParser,
        TrcError,
    >)
        ensures
            match r {
                Ok(p) => parse_trace(lines.deep_view(), index as int, sync_time) matches Ok(st)
                    && frames_of(p.packets@) == st.frames && p.version == st.version,
                Err(e) => parse_trace(lines.deep_view(), index as int, sync_time)
                    == Err::<ParseState, TrcError>(e),
            },
    {
        let ghost lm = lines.deep_view();
        let ghost src = index as int;
        let mut packets: Vec<Packet> = Vec::new();
        let mut version = TrcVersion::V1_0;
        let mut columns: Vec<char> = Vec::new();
        let mut first_time: Option<u64> = None;
        let mut li: usize = 0;
        proof {
            assert(frames_of(packets@) =~= Seq::<FrameModel>::empty());
            assert(columns@ =~= Seq::<char>::empty());
            assert(ParseState {
                version,
                columns: columns@,
                first_time,
                frames: frames_of(packets@),
            } =~= init_state());
        }
        while li < lines.len()
            invariant
                li <= lines.len(),
                lm == lines.deep_view(),
                lm.len() == lines@.len(),
                src == index as int,
                parse_trace(lm, src, sync_time) == run_from(
                    lm,
                    li as int,
                    ParseState {
                        version,
                        columns: columns@,
                        first_time,
                        frames: frames_of(packets@),
                    },
                    src,
                    sync_time,
                ),
            decreases lines.len() - li,
        {
            let ghost cur = ParseState {
                version,
                columns: columns@,
                first_time,
                frames: frames_of(packets@),
            };
            let line = chars_of(lines[li].as_str());
            proof {
                assert(lm[li as int] == lines@[li as int]@);
                assert(line@ == lm[li as int]);
                reveal_strlit(";$");
            }
            if line.len() >= 2 && line[0] == ';' && line[1] == '$' {
                proof {
                    assert(line@.take(2) =~= ";$"@);
                    assert(starts_with(line@, ";$"@));
                }
                let segs = split_chars(&line, '=');
                let ghost segm = segs.deep_view();
                if segs.len() < 2 {
                    proof {
                        assert(parse_step(cur, line@, src, sync_time) == Err::<
                            ParseState,
                            TrcError,
                        >(TrcError::InvalidDirective));
                    }
                    return Err(TrcError::InvalidDirective);
                }
                proof {
                    assert(segm[0] == segs@[0]@);
                    assert(segm[1] == segs@[1]@);
                }
                if eq_str(&segs[0], ";$FILEVERSION") {
                    if eq_str(&segs[1], "1.0") {
                        version = TrcVersion::V1_0;
                    } else if eq_str(&segs[1], "1.1") {
                        version = TrcVersion::V1_1;
                    } else if eq_str(&segs[1], "1.3") {
                        version = TrcVersion::V1_3;
                    } else if eq_str(&segs[1], "2.0") {
                        version = TrcVersion::V2_0;
                    } else if eq_str(&segs[1], "2.1") {
                        version = TrcVersion::V2_1;
                    } else {
                        proof {
                            assert(version_of(segm[1]) is None);
                            assert(parse_step(cur, line@, src, sync_time) == Err::<
                                ParseState,
                                TrcError,
                            >(TrcError::UnknownVersion));
                        }
                        return Err(TrcError::UnknownVersion);
                    }
                    proof {
                        assert(version_of(segm[1]) == Some(version));
                        assert(parse_step(cur, line@, src, sync_time) == Ok::<
                            ParseState,
                            TrcError,
                        >(ParseState { version, ..cur }));
                        step_preserved(lm, li as int, cur, ParseState { version, ..cur }, src, sync_time);
                    }
                } else if eq_str(&segs[0], ";$COLUMNS") {
                    let seg = &segs[1];
                    columns = seg.clone();
                    proof {
                        assert(columns@ =~= segm[1]);
                        assert(parse_step(cur, line@, src, sync_time) == Ok::<
                            ParseState,
                            TrcError,
                        >(ParseState { columns: columns@, ..cur }));
                        step_preserved(lm, li as int, cur, ParseState { columns: columns@, ..cur }, src, sync_time);
                    }
                } else {
                    proof {
                        assert(parse_step(cur, line@, src, sync_time) == Ok::<
                            ParseState,
                            TrcError,
                        >(cur));
                        step_preserved(lm, li as int, cur, cur, src, sync_time);
                    }
                }
            } else if line.len() > 0 && line[0] == ';' {
                proof {
                    assert(!starts_with(line@, ";$"@)) by {
                        if starts_with(line@, ";$"@) {
                            assert(line@.take(2)[1] == '$');
                        }
                    }
                    assert(parse_step(cur, line@, src, sync_time) == Ok::<ParseState, TrcError>(
                        cur,
                    ));
                    step_preserved(lm, li as int, cur, cur, src, sync_time);
                }
            } else {
                proof {
                    assert(!starts_with(line@, ";$"@)) by {
                        if starts_with(line@, ";$"@) {
                            assert(line@.take(2)[0] == ';');
                            assert(line@.take(2)[1] == '$');
                        }
                    }
                }
                let cols = tokenize(&line);
                let ghost colm = cols.deep_view();
                if cols.len() == 0 {
                    proof {
                        assert(parse_step(cur, line@, src, sync_time) == Ok::<ParseState, TrcError>(
                            cur,
                        ));
                        step_preserved(lm, li as int, cur, cur, src, sync_time);
                    }
                } else {
                    let hex_time = version == TrcVersion::V1_0;
                    let hb = contains_char(&columns, 'B');
                    let hr = contains_char(&columns, 'R');
                    let mut two_x: bool = false;
                    let mut id_col: usize = 2;
                    let mut dlc_col: usize = 3;
                    if version == TrcVersion::V1_1 {
                        id_col = 3;
                        dlc_col = 4;
                    } else if version == TrcVersion::V1_3 {
                        id_col = 4;
                        dlc_col = 6;
                    } else if version == TrcVersion::V2_0 || version == TrcVersion::V2_1 {
                        two_x = true;
                        id_col = if hb {
                            4
                        } else {
                            3
                        };
                        dlc_col = if !hb && !hr {
                            5
                        } else if hb && hr {
                            7
                        } else {
                            6
                        };
                    }
                    proof {
                        assert(id_col as int == id_col_of(version, columns@));
                        assert(dlc_col as int == dlc_col_of(version, columns@));
                    }
                    let skip_2x = two_x && (cols.len() < 6 || (dlc_col + 1 < cols.len() && eq_str(
                        &cols[dlc_col + 1],
                        "RTR",
                    )) || !(eq_str(&cols[2], "DT") || eq_str(&cols[2], "FD")));
                    proof {
                        if dlc_col + 1 < cols.len() {
                            assert(colm[dlc_col + 1] == cols@[dlc_col + 1]@);
                        }
                        if cols.len() >= 6 {
                            assert(colm[2] == cols@[2]@);
                        }
                    }
                    if skip_2x {
                        proof {
                            assert(row_step(cur, colm, src, sync_time) == Ok::<
                                ParseState,
                                TrcError,
                            >(cur));
                            assert(parse_step(cur, line@, src, sync_time) == Ok::<
                                ParseState,
                                TrcError,
                            >(cur));
                            step_preserved(lm, li as int, cur, cur, src, sync_time);
                        }
                    } else {
                        match row_tail(
                            &cols,
                            id_col,
                            dlc_col,
                            hex_time,
                            index,
                            sync_time,
                            &mut first_time,
                            &mut packets,
                            Ghost(cur),
                        ) {
                            Err(e) => {
                                proof {
                                    assert(row_step(cur, colm, src, sync_time) == Err::<
                                        ParseState,
                                        TrcError,
                                    >(e));
                                    assert(parse_step(cur, line@, src, sync_time) == Err::<
                                        ParseState,
                                        TrcError,
                                    >(e));
                                }
                                return Err(e);
                            },
                            Ok(_) => {
                                proof {
                                    let st2 = ParseState {
                                        first_time,
                                        frames: frames_of(packets@),
                                        ..cur
                                    };
                                    assert(row_step(cur, colm, src, sync_time) == Ok::<
                                        ParseState,
                                        TrcError,
                                    >(st2));
                                    assert(parse_step(cur, line@, src, sync_time) == Ok::<
                                        ParseState,
                                        TrcError,
                                    >(st2));
                                    step_preserved(lm, li as int, cur, st2, src, sync_time);
                                }
                            },
                        }
                    }
                }
            }
            li = li + 1;
        }
        proof {
            let fin = ParseState {
                version,
                columns: columns@,
                first_time,
                frames: frames_of(packets@),
            };
            assert(run_from(lm, li as int, fin, src, sync_time) == Ok::<ParseState, TrcError>(fin));
        }
        Ok(TrcParser { packets, version })
    }

    /// Parses a whole trace text by splitting it into lines first.
    pub fn new_from_text(text: &str, index: usize, sync_time: bool) -> (r: Result<
        TrcParser,
        TrcError,
    >)
        ensures
            match r {
                Ok(p) => parse_trace(split_on(text@, '\n'), index as int, sync_time) matches Ok(st)
                    && frames_of(p.packets@) == st.frames && p.version == st.version,
                Err(e) => parse_trace(split_on(text@, '\n'), index as int, sync_time)
                    == Err::<ParseState, TrcError>(e),
            },
    {
        let lines = split_text_lines(text);
        Self::new_from_lines(lines, index, sync_time)
    }
}

// ---------------------------------------------------------------------------
// Laws of the parser.
// ---------------------------------------------------------------------------

/// Extended/standard classification is purely lexical: a data row that
/// emits a frame marks it extended exactly when the identifier token is
/// longer than four characters, whatever the token's value.
pub proof fn lemma_extended_is_token_length(
    st: ParseState,
    cols: Seq<Seq<char>>,
    id_col: int,
    dlc_col: int,
    hex_time: bool,
    source: int,
    sync: bool,
)
    requires
        row_tail_step(st, cols, id_col, dlc_col, hex_time, source, sync) matches Ok(st2)
            && st2.frames.len() == st.frames.len() + 1,
    ensures
        row_tail_step(st, cols, id_col, dlc_col, hex_time, source, sync) matches Ok(st2)
            && st2.frames.last().extended == (cols[id_col].len() > 4),
{
}

/// Which data rows yield a frame, at the parse state they are read in: the
/// row is not skip-eligible for its dialect, and every column it needs is
/// present and parses, with an identifier other than the all-ones status
/// marker, enough data tokens for its declared length, and no
/// remote-request marker at the data position.
pub open spec fn row_yields_frame(st: ParseState, cols: Seq<Seq<char>>) -> bool {
    let hex_time = st.version is V1_0;
    let id_col = id_col_of(st.version, st.columns);
    let dlc_col = dlc_col_of(st.version, st.columns);
    let two_x = st.version is V2_0 || st.version is V2_1;
    &&& !(two_x && (cols.len() < 6 || (dlc_col + 1 < cols.len() && cols[dlc_col + 1] == "RTR"@)
        || !(cols[2] == "DT"@ || cols[2] == "FD"@)))
    &&& cols.len() >= 2
    &&& spec_time_ns(cols[1], hex_time) is Some
    &&& cols.len() > id_col
    &&& spec_parse_hex(cols[id_col], u32::MAX as int) is Some
    &&& spec_parse_hex(cols[id_col], u32::MAX as int)->0 != 0xFFFF_FFFF
    &&& cols.len() > dlc_col
    &&& spec_parse_hex(cols[dlc_col], usize::MAX as int) is Some
    &&& cols.len() >= dlc_col + 1 + spec_parse_hex(cols[dlc_col], usize::MAX as int)->0
    &&& !(spec_parse_hex(cols[dlc_col], usize::MAX as int)->0 > 0 && cols[dlc_col + 1] == "RTR"@)
}

/// The row-level counting law: a data row that passes every gate appends
/// exactly one frame, and any other accepted row appends none. Together
/// with the append-only law below this pins the frame count of a whole
/// parse — one frame per valid data row, in file order; the enumerated skip
/// rows contribute no frame and raise no error.
pub proof fn lemma_row_counting(st: ParseState, cols: Seq<Seq<char>>, source: int, sync: bool)
    ensures
        row_yields_frame(st, cols) ==> (row_step(st, cols, source, sync) matches Ok(st2)
            && st2.frames.len() == st.frames.len() + 1),
        !row_yields_frame(st, cols) ==> (match row_step(st, cols, source, sync) {
            Ok(st2) => st2.frames == st.frames,
            Err(_) => true,
        }),
{
}

/// An identifier of all-ones hex marks a status row: it never produces a
/// frame, in any dialect and under any column layout.
pub proof fn lemma_all_ones_id_no_frame(st: ParseState, cols: Seq<Seq<char>>, source: int, sync: bool)
    requires
        ({
            let id_col = id_col_of(st.version, st.columns);
            0 <= id_col < cols.len() ==> spec_parse_hex(cols[id_col], u32::MAX as int) == Some(
                0xFFFF_FFFFint,
            )
        }),
    ensures
        row_step(st, cols, source, sync) matches Ok(st2) ==> st2.frames == st.frames,
{
}

/// One frame sequence is a prefix of another, element for element.
pub open spec fn frames_prefix(a: Seq<FrameModel>, b: Seq<FrameModel>) -> bool {
    a.len() <= b.len() && forall|i: int| 0 <= i < a.len() ==> a[i] == b[i]
}

proof fn lemma_step_appends(st: ParseState, line: Seq<char>, source: int, sync: bool)
    ensures
        parse_step(st, line, source, sync) matches Ok(st2) ==> frames_prefix(st.frames, st2.frames)
            && st2.frames.len() <= st.frames.len() + 1,
{
}

/// A parse only ever appends frames: whatever a run emits extends what was
/// already emitted, one frame per accepted data row at most, so the frames
/// of a parsed trace stand in file order.
pub proof fn lemma_frames_in_file_order(
    lines: Seq<Seq<char>>,
    k: int,
    st: ParseState,
    source: int,
    sync: bool,
)
    ensures
        run_from(lines, k, st, source, sync) matches Ok(st2) ==> frames_prefix(
            st.frames,
            st2.frames,
        ),
    decreases lines.len() - k,
{
    if k < 0 || k >= lines.len() {
    } else {
        match parse_step(st, lines[k], source, sync) {
            Ok(st1) => {
                lemma_step_appends(st, lines[k], source, sync);
                lemma_frames_in_file_order(lines, k + 1, st1, source, sync);
            },
            Err(_) => {},
        }
    }
}

/// How a synchronized parse state relates to the plain one: same dialect
/// and directive state, same first-time reference, and frames identical up
/// to the timestamp shift.
pub open spec fn sync_rel(sf: ParseState, st: ParseState) -> bool {
    &&& st.version == sf.version
    &&& st.columns == sf.columns
    &&& st.first_time == sf.first_time
    &&& st.frames.len() == sf.frames.len()
    &&& (sf.first_time is None ==> sf.frames.len() == 0)
    &&& forall|i: int|
        0 <= i < sf.frames.len() ==> frame_sync_rel(
            #[trigger] sf.frames[i],
            st.frames[i],
            sf.first_time,
        )
}

/// One synchronized frame against its plain counterpart: all fields equal,
/// except that the timestamp is the raw one minus the first parsed time
/// offset (wrapping).
pub open spec fn frame_sync_rel(ff: FrameModel, tf: FrameModel, first: Option<u64>) -> bool {
    &&& tf.source == ff.source
    &&& tf.extended == ff.extended
    &&& tf.id == ff.id
    &&& tf.bytes == ff.bytes
    &&& ff.time is Some
    &&& first is Some
    &&& tf.time == Some(wsub64(ff.time->0, first->0))
}

proof fn lemma_sync_row_tail(
    sf: ParseState,
    st: ParseState,
    cols: Seq<Seq<char>>,
    id_col: int,
    dlc_col: int,
    hex_time: bool,
    source: int,
)
    requires
        sync_rel(sf, st),
    ensures
        match (
            row_tail_step(sf, cols, id_col, dlc_col, hex_time, source, false),
            row_tail_step(st, cols, id_col, dlc_col, hex_time, source, true),
        ) {
            (Ok(sf2), Ok(st2)) => sync_rel(sf2, st2),
            (Err(e1), Err(e2)) => e1 == e2,
            _ => false,
        },
{
    if cols.len() < 2 {
    } else {
        match spec_time_ns(cols[1], hex_time) {
            None => {},
            Some(tf) => {
                let pf = apply_sync(tf, sf.first_time, false);
                let pt = apply_sync(tf, st.first_time, true);
                let sf1 = ParseState { first_time: pf.1, ..sf };
                let st1 = ParseState { first_time: pt.1, ..st };
                assert(pf.1 == pt.1);
                assert(pf.1 is Some);
                assert(pt.0 == wsub64(tf, pf.1->0));
                assert(sync_rel(sf1, st1));
                if cols.len() <= id_col {
                } else {
                    match spec_parse_hex(cols[id_col], u32::MAX as int) {
                        None => {},
                        Some(id) => {
                            if id == 0xFFFF_FFFF {
                            } else if cols.len() <= dlc_col {
                            } else {
                                match spec_parse_hex(cols[dlc_col], usize::MAX as int) {
                                    None => {},
                                    Some(dlc) => {
                                        let data_col = dlc_col + 1;
                                        if cols.len() < data_col + dlc || (dlc > 0 && cols[data_col]
                                            == "RTR"@) {
                                        } else {
                                            let bs = Seq::new(
                                                dlc as nat,
                                                |x: int| byte_or_zero(cols[data_col + x]),
                                            );
                                            let fmf = FrameModel {
                                                source,
                                                time: Some(pf.0),
                                                extended: cols[id_col].len() > 4,
                                                id: id as u32,
                                                bytes: bs,
                                            };
                                            let fmt = FrameModel {
                                                source,
                                                time: Some(pt.0),
                                                extended: cols[id_col].len() > 4,
                                                id: id as u32,
                                                bytes: bs,
                                            };
                                            assert(frame_sync_rel(fmf, fmt, pf.1));
                                            let sf2 = ParseState {
                                                frames: sf1.frames.push(fmf),
                                                ..sf1
                                            };
                                            let st2 = ParseState {
                                                frames: st1.frames.push(fmt),
                                                ..st1
                                            };
                                            assert forall|i: int|
                                                0 <= i < sf2.frames.len() implies frame_sync_rel(
                                                #[trigger] sf2.frames[i],
                                                st2.frames[i],
                                                sf2.first_time,
                                            ) by {
                                                if i < sf1.frames.len() {
                                                    assert(sf2.frames[i] == sf1.frames[i]);
                                                    assert(st2.frames[i] == st1.frames[i]);
                                                    assert(frame_sync_rel(
                                                        sf1.frames[i],
                                                        st1.frames[i],
                                                        sf1.first_time,
                                                    ));
                                                } else {
                                                    assert(sf2.frames[i] == fmf);
                                                    assert(st2.frames[i] == fmt);
                                                }
                                            }
                                            assert(sync_rel(sf2, st2));
                                        }
                                    },
                                }
                            }
                        },
                    }
                }
            },
        }
    }
}

proof fn lemma_sync_step(sf: ParseState, st: ParseState, line: Seq<char>, source: int)
    requires
        sync_rel(sf, st),
    ensures
        match (parse_step(sf, line, source, false), parse_step(st, line, source, true)) {
            (Ok(sf2), Ok(st2)) => sync_rel(sf2, st2),
            (Err(e1), Err(e2)) => e1 == e2,
            _ => false,
        },
{
    if starts_with(line, ";$"@) {
        let segs = split_on(line, '=');
        if segs.len() < 2 {
        } else if segs[0] == ";$FILEVERSION"@ {
            match version_of(segs[1]) {
                Some(v) => {
                    assert(sync_rel(
                        ParseState { version: v, ..sf },
                        ParseState { version: v, ..st },
                    ));
                },
                None => {},
            }
        } else if segs[0] == ";$COLUMNS"@ {
            assert(sync_rel(
                ParseState { columns: segs[1], ..sf },
                ParseState { columns: segs[1], ..st },
            ));
        } else {
        }
    } else if line.len() > 0 && line[0] == ';' {
    } else {
        let cols = tokens_of(line);
        if cols.len() == 0 {
        } else {
            let hex_time = sf.version is V1_0;
            let id_col = id_col_of(sf.version, sf.columns);
            let dlc_col = dlc_col_of(sf.version, sf.columns);
            let two_x = sf.version is V2_0 || sf.version is V2_1;
            if two_x && (cols.len() < 6 || (dlc_col + 1 < cols.len() && cols[dlc_col + 1]
                == "RTR"@) || !(cols[2] == "DT"@ || cols[2] == "FD"@)) {
            } else {
                lemma_sync_row_tail(sf, st, cols, id_col, dlc_col, hex_time, source);
            }
        }
    }
}

proof fn lemma_sync_run(lines: Seq<Seq<char>>, k: int, sf: ParseState, st: ParseState, source: int)
    requires
        sync_rel(sf, st),
    ensures
        match (run_from(lines, k, sf, source, false), run_from(lines, k, st, source, true)) {
            (Ok(sf2), Ok(st2)) => sync_rel(sf2, st2),
            (Err(e1), Err(e2)) => e1 == e2,
            _ => false,
        },
    decreases lines.len() - k,
{
    if k < 0 || k >= lines.len() {
    } else {
        lemma_sync_step(sf, st, lines[k], source);
        match (parse_step(sf, lines[k], source, false), parse_step(st, lines[k], source, true)) {
            (Ok(sf2), Ok(st2)) => {
                lemma_sync_run(lines, k + 1, sf2, st2, source);
            },
            _ => {},
        }
    }
}

/// With origin synchronization the parse succeeds or fails exactly as the
/// plain parse does, with the same error; on success it emits the same
/// frames, except that every timestamp is the raw file timestamp minus the
/// first parsed time offset on the stream (wrapping). In particular, a
/// frame that carries the first parsed time offset — the first frame,
/// whenever the first time-bearing row yields a frame — has timestamp zero.
pub proof fn lemma_synchronize_origin(lines: Seq<Seq<char>>, source: int)
    ensures
        match (parse_trace(lines, source, false), parse_trace(lines, source, true)) {
            (Ok(sf), Ok(st)) => sync_rel(sf, st) && (forall|i: int|
                0 <= i < sf.frames.len() && (#[trigger] sf.frames[i]).time == Some(
                    sf.first_time->0,
                ) ==> st.frames[i].time == Some(0u64)),
            (Err(e1), Err(e2)) => e1 == e2,
            _ => false,
        },
{
    assert(sync_rel(init_state(), init_state()));
    lemma_sync_run(lines, 0, init_state(), init_state(), source);
    match (parse_trace(lines, source, false), parse_trace(lines, source, true)) {
        (Ok(sf), Ok(st)) => {
            assert forall|i: int|
                0 <= i < sf.frames.len() && (#[trigger] sf.frames[i]).time == Some(
                    sf.first_time->0,
                ) implies st.frames[i].time == Some(0u64) by {
                assert(frame_sync_rel(sf.frames[i], st.frames[i], sf.first_time));
                assert(wsub64(sf.first_time->0, sf.first_time->0) == 0);
            }
        },
        _ => {},
    }
}

/// One accepted parse step extends the run: processing line `k` from state
/// `a` into state `b` leaves the remainder of the run unchanged.
proof fn step_preserved(
    lines: Seq<Seq<char>>,
    k: int,
    a: ParseState,
    b: ParseState,
    source: int,
    sync: bool,
)
    requires
        0 <= k < lines.len(),
        parse_step(a, lines[k], source, sync) == Ok::<ParseState, TrcError>(b),
    ensures
        run_from(lines, k, a, source, sync) == run_from(lines, k + 1, b, source, sync),
{
}

} // verus!
