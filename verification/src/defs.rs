//! The library's model of a message-definition database: per-identifier
//! message definitions, each with an ordered list of bit-packed signal
//! definitions. Scaling values are exact decimals, so the decoder's
//! arithmetic is exact and fully specified.

use crate::numtext::{
    all_dec, dec_digit, dec_digit_val, dec_mag, dec_run, lemma_dec_mag_bound, lemma_dec_run_at,
    lemma_pow10_pos, pow10, pow10_i128, token_digits, token_negative,
};
use std::collections::BTreeMap;
use vstd::prelude::*;

verus! {

// ---------------------------------------------------------------------------
// Exact decimal scaling values.
// ---------------------------------------------------------------------------

/// An exact decimal number: the value `m / 10^e`.
#[derive(Clone, Copy, Debug, PartialEq, Eq, Structural)]
pub struct Dec {
    pub m: i64,
    pub e: u32,
}

/// The representable scaling range: at most twelve decimal places and a
/// mantissa within a million millions.
pub open spec fn dec_wf(d: Dec) -> bool {
    d.e <= 12 && -1000000000000 <= d.m <= 1000000000000
}

/// Whether the decimal is exactly one.
pub open spec fn dec_is_one(d: Dec) -> bool {
    d.m == pow10(d.e as nat)
}

/// Whether the decimal is negative.
pub open spec fn dec_is_neg(d: Dec) -> bool {
    d.m < 0
}

/// Whether a decimal is exactly one, decided on the representation.
pub fn dec_eq_one(d: &Dec) -> (r: bool)
    requires
        dec_wf(*d),
    ensures
        r == dec_is_one(*d),
{
    if d.m < 0 {
        proof {
            lemma_pow10_pos(d.e as nat);
        }
        return false;
    }
    let p = pow10_i128(d.e);
    (d.m as i128) == p
}

// ---------------------------------------------------------------------------
// Parsing a decimal literal (the textual form of a scaling value) into an
// exact decimal.
// ---------------------------------------------------------------------------

/// The digits of a decimal token with the point removed.
pub open spec fn dec_token_digits(ds: Seq<char>) -> Seq<char> {
    let k = dec_run(ds) as int;
    if k == ds.len() {
        ds
    } else {
        ds.take(k) + ds.skip(k + 1)
    }
}

/// The exact decimal a token denotes: an optional sign, digits with at most
/// one decimal point, at most thirteen digits in all, at most twelve of
/// them after the point, and a magnitude that fits the representable range.
pub open spec fn spec_parse_dec(s: Seq<char>) -> Option<Dec> {
    let ds = token_digits(s);
    let k = dec_run(ds) as int;
    let shape_ok = if k == ds.len() {
        k >= 1
    } else {
        ds[k] == '.' && all_dec(ds.skip(k + 1)) && ds.len() >= 2
    };
    if !shape_ok {
        None
    } else {
        let e = if k == ds.len() {
            0int
        } else {
            ds.len() - k - 1
        };
        let digits = dec_token_digits(ds);
        if digits.len() > 13 || e > 12 {
            None
        } else {
            let mag = dec_mag(digits);
            if mag > 1000000000000 {
                None
            } else {
                Some(
                    Dec {
                        m: (if token_negative(s) {
                            -mag
                        } else {
                            mag
                        }) as i64,
                        e: e as u32,
                    },
                )
            }
        }
    }
}

/// Parses the textual form of a scaling value into an exact decimal.
#[verifier::rlimit(50)]
pub fn parse_dec(tok: &Vec<char>) -> (r: Option<Dec>)
    ensures
        r == spec_parse_dec(tok@),
        r matches Some(d) ==> dec_wf(d),
{
    let ghost s = tok@;
    let mut i: usize = 0;
    let mut neg: bool = false;
    if tok.len() > 0 && (tok[0] == '+' || tok[0] == '-') {
        neg = tok[0] == '-';
        i = 1;
    }
    proof {
        assert(token_digits(s) =~= s.skip(i as int));
        assert(neg == token_negative(s));
    }
    let ghost ds = token_digits(s);
    let start: usize = i;
    let mut mag: u64 = 0;
    let mut ndigits: usize = 0;
    // integer digits
    loop
        invariant_except_break
            start <= i <= tok.len(),
            s == tok@,
            ds == token_digits(s),
            ds =~= s.skip(start as int),
            forall|m: int| 0 <= m < i - start ==> dec_digit_val(ds[m]) >= 0,
            ndigits == i - start,
            ndigits <= 13,
            mag as int == dec_mag(ds.take(i - start)),
        ensures
            start <= i <= tok.len(),
            s == tok@,
            ds == token_digits(s),
            ds =~= s.skip(start as int),
            forall|m: int| 0 <= m < i - start ==> dec_digit_val(ds[m]) >= 0,
            ndigits == i - start,
            mag as int == dec_mag(ds.take(i - start)),
            i == tok.len() || dec_digit_val(s[i as int]) < 0 || ndigits > 13,
            ndigits <= 14,
        decreases tok.len() - i,
    {
        if i == tok.len() {
            break;
        }
        let d = dec_digit(tok[i]);
        if d < 0 {
            break;
        }
        proof {
            let k = i - start;
            assert(ds.take(k + 1).drop_last() =~= ds.take(k));
            assert(ds.take(k + 1).last() == ds[k] == s[i as int]);
            assert(all_dec(ds.take(k + 1))) by {
                assert(forall|m: int|
                    0 <= m < k + 1 ==> dec_digit_val(#[trigger] ds.take(k + 1)[m]) == dec_digit_val(
                        ds[m],
                    ));
            }
            lemma_dec_mag_bound(ds.take(k + 1));
            reveal_with_fuel(pow10, 15);
        }
        mag = mag * 10 + (d as u64);
        ndigits = ndigits + 1;
        i = i + 1;
        if ndigits > 13 {
            break;
        }
    }
    let ghost k = i - start;
    if ndigits > 13 {
        // too many digits before the point: out of the representable range
        proof {
            assert(ds.len() >= 14);
            crate::numtext::lemma_dec_run_ge(ds, 14);
            crate::numtext::lemma_dec_run_le(ds);
            let kk = dec_run(ds) as int;
            assert(dec_token_digits(ds).len() >= 14) by {
                if kk < ds.len() {
                    assert(ds.len() >= 15);
                    assert(dec_token_digits(ds).len() == kk + (ds.len() - kk - 1));
                } else {
                    assert(dec_token_digits(ds) == ds);
                }
            }
        }
        return None;
    }
    proof {
        lemma_dec_run_at(ds, k);
    }
    let mut e: u32 = 0;
    if i == start && i >= tok.len() {
        proof {
            assert(ds.len() == 0);
        }
        return None;
    }
    if i < tok.len() {
        proof {
            assert(ds[k] == s[i as int]);
        }
        if tok[i] != '.' {
            return None;
        }
        if tok.len() - start < 2 {
            proof {
                assert(ds.len() < 2);
            }
            return None;
        }
        // fraction digits
        let mut j: usize = i + 1;
        while j < tok.len()
            invariant
                start <= i < tok.len(),
                i + 1 <= j <= tok.len(),
                s == tok@,
                k == i - start,
                ds == token_digits(s),
                ds =~= s.skip(start as int),
                dec_run(ds) == k,
                ds[k] == '.',
                ds.len() >= 2,
                forall|m: int| 0 <= m < k ==> dec_digit_val(ds[m]) >= 0,
                e == j - i - 1,
                ndigits == k + e,
                ndigits <= 13,
                forall|m: int| i + 1 <= m < j ==> dec_digit_val(s[m]) >= 0,
                mag as int == dec_mag(ds.take(k) + s.subrange(i as int + 1, j as int)),
            decreases tok.len() - j,
        {
            let d = dec_digit(tok[j]);
            if d < 0 {
                proof {
                    assert(ds.skip(k + 1)[j - start - k - 1] == s[j as int]);
                    assert(!all_dec(ds.skip(k + 1)));
                }
                return None;
            }
            if ndigits == 13 {
                // too many digits in all
                proof {
                    assert(ds.skip(k + 1).len() >= j - i);
                    if all_dec(ds.skip(k + 1)) {
                        assert(dec_token_digits(ds).len() == k + ds.len() - k - 1);
                        assert(ds.len() - k - 1 >= j - i);
                    }
                }
                return None;
            }
            proof {
                let pre = ds.take(k) + s.subrange(i as int + 1, j as int);
                let nxt = ds.take(k) + s.subrange(i as int + 1, j as int + 1);
                assert(nxt.drop_last() =~= pre);
                assert(s.subrange(i as int + 1, j as int + 1).len() == j - i);
                assert(nxt.len() == k + j - i);
                assert(nxt.last() == nxt[k + j - i - 1]);
                assert(nxt[k + j - i - 1] == s.subrange(i as int + 1, j as int + 1)[j - i - 1]);
                assert(s.subrange(i as int + 1, j as int + 1)[j - i - 1] == s[(i + 1) + (j - i - 1)]);
                assert((i + 1) + (j - i - 1) == j as int);
                assert(nxt.last() == s[j as int]);
                assert(all_dec(nxt)) by {
                    assert(forall|m: int|
                        0 <= m < k ==> dec_digit_val(#[trigger] nxt[m]) == dec_digit_val(ds[m]));
                    assert(forall|m: int|
                        k <= m < nxt.len() ==> dec_digit_val(#[trigger] nxt[m]) == dec_digit_val(
                            s[i + 1 + m - k],
                        ));
                }
                lemma_dec_mag_bound(nxt);
                reveal_with_fuel(pow10, 15);
            }
            mag = mag * 10 + (d as u64);
            ndigits = ndigits + 1;
            e = e + 1;
            j = j + 1;
        }
        proof {
            assert forall|m: int| 0 <= m < ds.skip(k + 1).len() implies dec_digit_val(
                #[trigger] ds.skip(k + 1)[m],
            ) >= 0 by {
                assert(ds.skip(k + 1)[m] == s[start + k + 1 + m]);
            }
            assert(all_dec(ds.skip(k + 1)));
            assert(s.subrange(i as int + 1, tok.len() as int) =~= ds.skip(k + 1));
            assert(dec_token_digits(ds) =~= ds.take(k) + ds.skip(k + 1));
        }
        if e > 12 {
            return None;
        }
    } else {
        proof {
            assert(k == ds.len());
            assert(k >= 1);
            assert(dec_token_digits(ds) =~= ds.take(k));
        }
    }
    if mag > 1000000000000u64 {
        return None;
    }
    let m: i64 = if neg {
        -(mag as i64)
    } else {
        mag as i64
    };
    Some(Dec { m, e })
}

// ---------------------------------------------------------------------------
// Signal and message definitions.
// ---------------------------------------------------------------------------

/// The multiplexing role of a signal: an ordinary signal, the selector that
/// multiplexes others, or a signal selected by a selector value.
#[derive(Clone, Copy, Debug, PartialEq, Eq, Structural)]
pub enum MuxRole {
    Plain,
    Selector,
    Selected(u64),
}

/// One named, bit-packed field of a message payload, with its position,
/// width, byte order, signedness and exact scaling. A definition whose
/// window or scaling could not be validated at load time stays in its
/// message but is marked undecodable, and renders as no value.
pub struct SignalDef {
    pub name: String,
    pub start_bit: u16,
    pub width: u16,
    pub big_endian: bool,
    pub signed: bool,
    pub factor: Dec,
    pub offset: Dec,
    pub unit: String,
    pub mux: MuxRole,
    pub undecodable: bool,
}

/// Mathematical model of one signal definition.
#[verifier::ext_equal]
pub ghost struct SignalDefModel {
    pub name: Seq<char>,
    pub start_bit: u16,
    pub width: u16,
    pub big_endian: bool,
    pub signed: bool,
    pub factor: Dec,
    pub offset: Dec,
    pub unit: Seq<char>,
    pub mux: MuxRole,
    pub undecodable: bool,
}

impl View for SignalDef {
    type V = SignalDefModel;

    open spec fn view(&self) -> SignalDefModel {
        SignalDefModel {
            name: self.name@,
            start_bit: self.start_bit,
            width: self.width,
            big_endian: self.big_endian,
            signed: self.signed,
            factor: self.factor,
            offset: self.offset,
            unit: self.unit@,
            mux: self.mux,
            undecodable: self.undecodable,
        }
    }
}

/// A signal definition validated at load time: a non-empty window within an
/// eight-byte payload (in the numbering of its byte order), a machine word
/// at most, and representable scaling — or the undecodable marker.
pub open spec fn signal_wf(sig: SignalDef) -> bool {
    sig.undecodable || {
        &&& 1 <= sig.width <= 64
        &&& (if sig.big_endian {
            sig.start_bit + 1 >= sig.width && sig.start_bit < 64
        } else {
            sig.start_bit + sig.width <= 64
        })
        &&& dec_wf(sig.factor)
        &&& dec_wf(sig.offset)
    }
}

/// One message definition: an identifier, a display name, and the signals
/// carried by the payload.
pub struct MessageDef {
    pub id: u32,
    pub name: String,
    pub signals: Vec<SignalDef>,
}

/// Mathematical model of one message definition.
#[verifier::ext_equal]
pub ghost struct MessageDefModel {
    pub id: u32,
    pub name: Seq<char>,
    pub signals: Seq<SignalDefModel>,
}

impl View for MessageDef {
    type V = MessageDefModel;

    open spec fn view(&self) -> MessageDefModel {
        MessageDefModel {
            id: self.id,
            name: self.name@,
            signals: self.signals@.map_values(|s: SignalDef| s@),
        }
    }
}

pub open spec fn message_wf(m: MessageDef) -> bool {
    forall|i: int| 0 <= i < m.signals.len() ==> signal_wf(#[trigger] m.signals@[i])
}

/// One loaded definition table: message definitions in file order, with a
/// map from identifier to the definition holding it (for an identifier
/// defined twice, the later definition).
pub struct DefTable {
    pub messages: Vec<MessageDef>,
    pub ids: BTreeMap<u32, usize>,
}

impl DefTable {
    /// All indices in the map are valid and point at a message with that
    /// identifier, every message is reachable through its identifier, and
    /// every definition is validated.
    pub open spec fn wf(&self) -> bool {
        &&& forall|k: u32| #[trigger]
            self.ids@.contains_key(k) ==> self.ids@[k] < self.messages.len()
                && self.messages@[self.ids@[k] as int].id == k
        &&& forall|i: int|
            0 <= i < self.messages.len() ==> self.ids@.contains_key(
                (#[trigger] self.messages@[i]).id,
            )
        &&& forall|i: int| 0 <= i < self.messages.len() ==> message_wf(#[trigger] self.messages@[i])
    }

    /// Whether the table defines the identifier.
    pub open spec fn spec_has(&self, id: u32) -> bool {
        self.ids@.contains_key(id)
    }

    pub fn new() -> (r: DefTable)
        ensures
            r.wf(),
            r.messages@.len() == 0,
            forall|id: u32| !r.spec_has(id),
    {
        DefTable { messages: Vec::new(), ids: BTreeMap::new() }
    }

    /// Adds one validated message definition; a repeated identifier resolves
    /// to the later definition.
    pub fn push_message(&mut self, m: MessageDef)
        requires
            old(self).wf(),
            message_wf(m),
            old(self).messages@.len() < usize::MAX,
        ensures
            final(self).wf(),
            final(self).messages@.len() == old(self).messages@.len() + 1,
            final(self).messages@ == old(self).messages@.push(m),
            final(self).ids@ == old(self).ids@.insert(m.id, old(self).messages@.len() as usize),
            forall|id: u32| #[trigger] final(self).spec_has(id) <==> old(self).spec_has(id) || id
                == m.id,
    {
        let idx = self.messages.len();
        let ghost mid = m.id;
        self.messages.push(m);
        self.ids.insert(self.messages[idx].id, idx);
        proof {
            assert(self.messages@[idx as int].id == mid);
        }
    }

    /// The index of the message definition for an identifier, if any.
    pub fn lookup(&self, id: u32) -> (r: Option<usize>)
        requires
            self.wf(),
        ensures
            match r {
                Some(i) => self.spec_has(id) && self.ids@[id] == i && i < self.messages.len()
                    && self.messages@[i as int].id == id,
                None => !self.spec_has(id),
            },
    {
        match self.ids.get(&id) {
            Some(i) => Some(*i),
            None => None,
        }
    }

    /// Whether the table defines the identifier.
    pub fn has_id(&self, id: u32) -> (r: bool)
        requires
            self.wf(),
        ensures
            r == self.spec_has(id),
    {
        self.ids.contains_key(&id)
    }
}

} // verus!
