//! Loading a message-definition database: the can_dbc crate parses the
//! definition text, and verified code validates each definition and
//! converts it into the library's model.
//!
//! The parse is a function of the text alone, so its verdict and its
//! content carry names (`spec_dbc_parse` and the per-value models below):
//! loading succeeds exactly when the parser accepts the text, and the built
//! table is provably the validated image of what was parsed. A definition
//! whose bit window does not fit an eight-byte payload, or whose scaling
//! cannot be represented exactly, stays in its message marked undecodable.

use crate::defs::{
    parse_dec, spec_parse_dec, DefTable, Dec, MessageDef, MessageDefModel, MuxRole, SignalDef,
    SignalDefModel, message_wf, signal_wf,
};
use crate::numtext::chars_of;
use can_dbc::Message as CanMessage;
use vstd::prelude::*;

verus! {

#[verifier::external_type_specification]
#[verifier::external_body]
pub struct ExDbc(can_dbc::Dbc);

#[verifier::external_type_specification]
#[verifier::external_body]
pub struct ExDbcMessage(CanMessage);

#[verifier::external_type_specification]
#[verifier::external_body]
pub struct ExDbcSignal(can_dbc::Signal);

/// Why a definition database could not be loaded.
#[derive(Debug)]
pub struct DbcError {
    pub detail: String,
}

// ---------------------------------------------------------------------------
// What the outside parser yields, in plain values.
// ---------------------------------------------------------------------------

/// One signal definition as the outside parser reports it: position, width,
/// byte order, signedness, multiplexing role, and the two scaling values in
/// their decimal textual form.
#[verifier::ext_equal]
pub ghost struct RawSignal {
    pub name: Seq<char>,
    pub start_bit: u64,
    pub size: u64,
    pub big_endian: bool,
    pub signed: bool,
    pub factor: Seq<char>,
    pub offset: Seq<char>,
    pub unit: Seq<char>,
    pub mux: MuxRole,
}

/// One message definition as the outside parser reports it.
#[verifier::ext_equal]
pub ghost struct RawMessage {
    pub id: u32,
    pub name: Seq<char>,
    pub signals: Seq<RawSignal>,
}

/// What parsing definition text yields: the message definitions in file
/// order, or nothing when the text is rejected. The parse is a function of
/// the text alone; this name stands for its result.
pub uninterp spec fn spec_dbc_parse(text: Seq<char>) -> Option<Seq<RawMessage>>;

/// The parsed content a can_dbc database value holds.
pub uninterp spec fn dbc_model(d: can_dbc::Dbc) -> Seq<RawMessage>;

/// The parsed content a can_dbc message definition holds.
pub uninterp spec fn message_model(m: CanMessage) -> RawMessage;

/// The parsed content a can_dbc signal definition holds.
pub uninterp spec fn signal_model(s: can_dbc::Signal) -> RawSignal;

// ---------------------------------------------------------------------------
// The trusted boundary: one item per can_dbc function or field.
// ---------------------------------------------------------------------------

/// Relies on can_dbc's `Dbc::try_from` on text: parses a whole definition
/// database, accepting exactly the text the grammar accepts; a parse
/// failure is rendered as text.
#[verifier::external_body]
fn dbc_parse(text: &str) -> (r: Result<can_dbc::Dbc, String>)
    ensures
        match r {
            Ok(d) => spec_dbc_parse(text@) == Some(dbc_model(d)),
            Err(_) => spec_dbc_parse(text@) is None,
        },
{
    match can_dbc::Dbc::try_from(text) {
        Ok(d) => Ok(d),
        Err(e) => Err(format!("{:?}", e)),
    }
}

/// Relies on the `messages` field of can_dbc::Dbc: the parsed message
/// definitions, in file order.
#[verifier::external_body]
fn dbc_messages(dbc: &can_dbc::Dbc) -> (r: &Vec<CanMessage>)
    ensures
        r@.map_values(|m: CanMessage| message_model(m)) == dbc_model(*dbc),
{
    &dbc.messages
}

/// Relies on the `id` field of can_dbc::Message: the numeric identifier,
/// with standard identifiers widened.
#[verifier::external_body]
fn message_raw_id(m: &CanMessage) -> (r: u32)
    ensures
        r == message_model(*m).id,
{
    match m.id {
        can_dbc::MessageId::Standard(id) => id as u32,
        can_dbc::MessageId::Extended(id) => id,
    }
}

/// Relies on the `name` field of can_dbc::Message.
#[verifier::external_body]
fn message_name(m: &CanMessage) -> (r: String)
    ensures
        r@ == message_model(*m).name,
{
    m.name.clone()
}

/// Relies on the `signals` field of can_dbc::Message.
#[verifier::external_body]
fn message_signals(m: &CanMessage) -> (r: &Vec<can_dbc::Signal>)
    ensures
        r@.map_values(|s: can_dbc::Signal| signal_model(s)) == message_model(*m).signals,
{
    &m.signals
}

/// Relies on the `name` field of can_dbc::Signal.
#[verifier::external_body]
fn signal_name(s: &can_dbc::Signal) -> (r: String)
    ensures
        r@ == signal_model(*s).name,
{
    s.name.clone()
}

/// Relies on the `start_bit` field of can_dbc::Signal.
#[verifier::external_body]
fn signal_start_bit(s: &can_dbc::Signal) -> (r: u64)
    ensures
        r == signal_model(*s).start_bit,
{
    s.start_bit
}

/// Relies on the `size` field of can_dbc::Signal: the bit width.
#[verifier::external_body]
fn signal_size(s: &can_dbc::Signal) -> (r: u64)
    ensures
        r == signal_model(*s).size,
{
    s.size
}

/// Relies on the `byte_order` field of can_dbc::Signal.
#[verifier::external_body]
fn signal_is_big_endian(s: &can_dbc::Signal) -> (r: bool)
    ensures
        r == signal_model(*s).big_endian,
{
    match s.byte_order {
        can_dbc::ByteOrder::BigEndian => true,
        can_dbc::ByteOrder::LittleEndian => false,
    }
}

/// Relies on the `value_type` field of can_dbc::Signal.
#[verifier::external_body]
fn signal_is_signed(s: &can_dbc::Signal) -> (r: bool)
    ensures
        r == signal_model(*s).signed,
{
    match s.value_type {
        can_dbc::ValueType::Signed => true,
        can_dbc::ValueType::Unsigned => false,
    }
}

/// Relies on the `multiplexer_indicator` field of can_dbc::Signal, each
/// variant mapped to the library's multiplexing role.
#[verifier::external_body]
fn signal_mux_role(s: &can_dbc::Signal) -> (r: MuxRole)
    ensures
        r == signal_model(*s).mux,
{
    match s.multiplexer_indicator {
        can_dbc::MultiplexIndicator::Plain => MuxRole::Plain,
        can_dbc::MultiplexIndicator::Multiplexor => MuxRole::Selector,
        can_dbc::MultiplexIndicator::MultiplexedSignal(v) => MuxRole::Selected(v),
        can_dbc::MultiplexIndicator::MultiplexorAndMultiplexedSignal(v) => MuxRole::Selected(v),
    }
}

/// Relies on the `factor` field of can_dbc::Signal, rendered as decimal
/// text.
#[verifier::external_body]
fn signal_factor_text(s: &can_dbc::Signal) -> (r: String)
    ensures
        r@ == signal_model(*s).factor,
{
    format!("{}", s.factor)
}

/// Relies on the `offset` field of can_dbc::Signal, rendered as decimal
/// text.
#[verifier::external_body]
fn signal_offset_text(s: &can_dbc::Signal) -> (r: String)
    ensures
        r@ == signal_model(*s).offset,
{
    format!("{}", s.offset)
}

/// Relies on the `unit` field of can_dbc::Signal.
#[verifier::external_body]
fn signal_unit(s: &can_dbc::Signal) -> (r: String)
    ensures
        r@ == signal_model(*s).unit,
{
    s.unit.clone()
}

// ---------------------------------------------------------------------------
// Verified validation and conversion.
// ---------------------------------------------------------------------------

/// The validated image of one parsed signal: kept as given when its window
/// fits an eight-byte payload in its own bit numbering, its width fits a
/// machine word, and both scaling values are exactly representable
/// decimals; otherwise marked undecodable, with inert position and scaling.
pub open spec fn spec_convert_signal(r: RawSignal) -> SignalDefModel {
    let ok = {
        &&& 1 <= r.size <= 64
        &&& r.start_bit < 64
        &&& (if r.big_endian {
            r.start_bit + 1 >= r.size
        } else {
            r.start_bit + r.size <= 64
        })
        &&& spec_parse_dec(r.factor) is Some
        &&& spec_parse_dec(r.offset) is Some
    };
    if ok {
        SignalDefModel {
            name: r.name,
            start_bit: r.start_bit as u16,
            width: r.size as u16,
            big_endian: r.big_endian,
            signed: r.signed,
            factor: spec_parse_dec(r.factor)->0,
            offset: spec_parse_dec(r.offset)->0,
            unit: r.unit,
            mux: r.mux,
            undecodable: false,
        }
    } else {
        SignalDefModel {
            name: r.name,
            start_bit: 0,
            width: 0,
            big_endian: r.big_endian,
            signed: r.signed,
            factor: Dec { m: 1, e: 0 },
            offset: Dec { m: 0, e: 0 },
            unit: r.unit,
            mux: r.mux,
            undecodable: true,
        }
    }
}

/// The validated image of one parsed message.
pub open spec fn spec_convert_message(r: RawMessage) -> MessageDefModel {
    MessageDefModel {
        id: r.id,
        name: r.name,
        signals: r.signals.map_values(|s: RawSignal| spec_convert_signal(s)),
    }
}

/// The validated definition table the text denotes: the validated image of
/// every parsed message, in file order, or nothing when the parser rejects
/// the text.
pub open spec fn spec_def_messages(text: Seq<char>) -> Option<Seq<MessageDefModel>> {
    match spec_dbc_parse(text) {
        Some(raw) => Some(raw.map_values(|r: RawMessage| spec_convert_message(r))),
        None => None,
    }
}

/// Validates and converts one parsed signal definition.
fn convert_signal(s: &can_dbc::Signal) -> (r: SignalDef)
    ensures
        r@ == spec_convert_signal(signal_model(*s)),
        signal_wf(r),
{
    let start64 = signal_start_bit(s);
    let width64 = signal_size(s);
    let big_endian = signal_is_big_endian(s);
    let ftext = signal_factor_text(s);
    let fchars = chars_of(ftext.as_str());
    let factor_opt = parse_dec(&fchars);
    let otext = signal_offset_text(s);
    let ochars = chars_of(otext.as_str());
    let offset_opt = parse_dec(&ochars);
    let window_ok = 1 <= width64 && width64 <= 64 && start64 < 64 && (if big_endian {
        start64 + 1 >= width64
    } else {
        start64 + width64 <= 64
    });
    let r = if window_ok && factor_opt.is_some() && offset_opt.is_some() {
        SignalDef {
            name: signal_name(s),
            start_bit: start64 as u16,
            width: width64 as u16,
            big_endian,
            signed: signal_is_signed(s),
            factor: factor_opt.unwrap(),
            offset: offset_opt.unwrap(),
            unit: signal_unit(s),
            mux: signal_mux_role(s),
            undecodable: false,
        }
    } else {
        SignalDef {
            name: signal_name(s),
            start_bit: 0,
            width: 0,
            big_endian,
            signed: signal_is_signed(s),
            factor: Dec { m: 1, e: 0 },
            offset: Dec { m: 0, e: 0 },
            unit: signal_unit(s),
            mux: signal_mux_role(s),
            undecodable: true,
        }
    };
    proof {
        assert(r@ =~= spec_convert_signal(signal_model(*s)));
    }
    r
}

/// Parses definition text and builds a validated definition table: loading
/// succeeds exactly when the parser accepts the text, and the table then
/// holds the validated image of every parsed message, in file order.
pub fn build_def_table(text: &str) -> (r: Result<DefTable, DbcError>)
    ensures
        match r {
            Ok(t) => t.wf() && spec_def_messages(text@) == Some(
                t.messages@.map_values(|m: MessageDef| m@),
            ),
            Err(_) => spec_def_messages(text@) is None,
        },
{
    let dbc = match dbc_parse(text) {
        Ok(d) => d,
        Err(e) => {
            return Err(DbcError { detail: e });
        },
    };
    let ghost raw = dbc_model(dbc);
    let msgs = dbc_messages(&dbc);
    proof {
        assert(msgs@.len() == raw.len());
        assert(forall|x: int|
            0 <= x < msgs@.len() ==> #[trigger] message_model(msgs@[x]) == raw[x]) by {
            assert(forall|x: int|
                0 <= x < msgs@.len() ==> msgs@.map_values(|m: CanMessage| message_model(m))[x]
                    == message_model(#[trigger] msgs@[x]));
        }
    }
    let mut table = DefTable::new();
    let mut i: usize = 0;
    while i < msgs.len()
        invariant
            i <= msgs.len(),
            table.wf(),
            table.messages@.len() == i,
            raw == dbc_model(dbc),
            msgs@.len() == raw.len(),
            forall|x: int| 0 <= x < msgs@.len() ==> #[trigger] message_model(msgs@[x]) == raw[x],
            forall|x: int|
                0 <= x < i ==> (#[trigger] table.messages@[x])@ == spec_convert_message(raw[x]),
        decreases msgs.len() - i,
    {
        let ghost rm = message_model(msgs@[i as int]);
        proof {
            assert(rm == raw[i as int]);
        }
        let id = message_raw_id(&msgs[i]);
        let name = message_name(&msgs[i]);
        let sigs = message_signals(&msgs[i]);
        proof {
            assert(sigs@.len() == rm.signals.len());
            assert(forall|x: int|
                0 <= x < sigs@.len() ==> #[trigger] signal_model(sigs@[x]) == rm.signals[x]) by {
                assert(forall|x: int|
                    0 <= x < sigs@.len() ==> sigs@.map_values(|s: can_dbc::Signal| signal_model(s))[
                        x] == signal_model(#[trigger] sigs@[x]));
            }
        }
        let mut signals: Vec<SignalDef> = Vec::new();
        let mut j: usize = 0;
        while j < sigs.len()
            invariant
                j <= sigs.len(),
                rm == message_model(msgs@[i as int]),
                sigs@.len() == rm.signals.len(),
                forall|x: int|
                    0 <= x < sigs@.len() ==> #[trigger] signal_model(sigs@[x]) == rm.signals[x],
                signals@.len() == j,
                forall|x: int| 0 <= x < j ==> signal_wf(#[trigger] signals@[x]),
                forall|x: int|
                    0 <= x < j ==> (#[trigger] signals@[x])@ == spec_convert_signal(rm.signals[x]),
            decreases sigs.len() - j,
        {
            let sd = convert_signal(&sigs[j]);
            signals.push(sd);
            j = j + 1;
        }
        let md = MessageDef { id, name, signals };
        proof {
            assert(message_wf(md));
            assert(md@ =~= spec_convert_message(rm)) by {
                let lhs = md@.signals;
                let rhs = rm.signals.map_values(|rs: RawSignal| spec_convert_signal(rs));
                assert forall|x: int| 0 <= x < lhs.len() implies #[trigger] lhs[x] == rhs[x] by {
                    assert(lhs[x] == md.signals@[x]@);
                    assert(rhs[x] == spec_convert_signal(rm.signals[x]));
                }
                assert(lhs =~= rhs);
            }
        }
        table.push_message(md);
        i = i + 1;
    }
    proof {
        let lhs = table.messages@.map_values(|m: MessageDef| m@);
        let rhs = raw.map_values(|r: RawMessage| spec_convert_message(r));
        assert forall|x: int| 0 <= x < raw.len() implies #[trigger] lhs[x] == rhs[x] by {
            assert(lhs[x] == table.messages@[x]@);
            assert(rhs[x] == spec_convert_message(raw[x]));
        }
        assert(lhs =~= rhs);
    }
    Ok(table)
}

} // verus!
