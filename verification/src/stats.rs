//! The streaming statistics engine for one channel: byte/frame counters,
//! exponentially smoothed bus load and throughput, and per-identifier
//! message state (arrival counting, period estimation, staleness
//! detection, stable display ordering).
//!
//! The engine is driven by two events: `process_packet` for each arriving
//! frame, and `periodic` for the once-per-second tick, which takes the
//! current monotonic instant (in nanoseconds) as an explicit argument so
//! the engine stays deterministic.

use crate::dbc::{build_def_table, spec_def_messages, DbcError};
use crate::decode::{signal_value_text, spec_signal_text};
use crate::defs::{signal_wf, DefTable, MessageDef, SignalDef};
use crate::{empty_frame, FrameModel, Packet};
use vstd::hash_map::HashMapWithView;
use vstd::prelude::*;

verus! {

broadcast use vstd::std_specs::hash::axiom_u32_obeys_hash_table_key_model;

/// Mathematical model of one message's state.
#[verifier::ext_equal]
pub ghost struct MessageModel {
    pub source: int,
    pub dbc: Option<usize>,
    pub count: int,
    pub delta: u64,
    pub missing: u64,
    pub current: FrameModel,
    pub previous: FrameModel,
    pub count_accum: int,
}

/// Per-message statistics: arrival count, estimated period (`delta`,
/// nanoseconds), staleness (`missing`, nanoseconds; zero while fresh), the
/// latest and the previous frame, and the arrivals accumulated since the
/// last tick.
pub struct Message {
    pub source: usize,
    pub dbc: Option<usize>,
    pub count: usize,
    pub delta: u64,
    pub missing: u64,
    pub current: Packet,
    pub previous: Packet,
    pub count_accum: usize,
}

impl View for Message {
    type V = MessageModel;

    open spec fn view(&self) -> MessageModel {
        MessageModel {
            source: self.source as int,
            dbc: self.dbc,
            count: self.count as int,
            delta: self.delta,
            missing: self.missing,
            current: self.current@,
            previous: self.previous@,
            count_accum: self.count_accum as int,
        }
    }
}

/// The state a message slot is created in: no arrivals yet, empty frames.
pub open spec fn fresh_message(source: int, dbc: Option<usize>) -> MessageModel {
    MessageModel {
        source,
        dbc,
        count: 0,
        delta: 0,
        missing: 0,
        current: empty_frame(),
        previous: empty_frame(),
        count_accum: 0,
    }
}

impl Message {
    /// A new slot for a first-seen identifier.
    pub fn new(packet: &Packet, dbc: Option<usize>) -> (r: Message)
        ensures
            r@ == fresh_message(packet.source as int, dbc),
    {
        let r = Message {
            source: packet.source,
            dbc,
            count: 0,
            delta: 0,
            missing: 0,
            current: Packet::default(),
            previous: Packet::default(),
            count_accum: 0,
        };
        proof {
            assert(r@ =~= fresh_message(packet.source as int, dbc));
        }
        r
    }
}

// ---------------------------------------------------------------------------
// Arithmetic helpers of the engine.
// ---------------------------------------------------------------------------

/// Wrapping increment of a 32-bit counter.
pub open spec fn wadd32(a: u32, b: u32) -> u32 {
    ((a + b) % 0x1_0000_0000) as u32
}

fn wrapping_add32(a: u32, b: u32) -> (r: u32)
    ensures
        r == wadd32(a, b),
{
    if a <= u32::MAX - b {
        a + b
    } else {
        proof {
            assert((a + b) % 0x1_0000_0000 == a + b - 0x1_0000_0000);
        }
        (a - (u32::MAX - b)) - 1
    }
}

/// Wrapping increment of a machine-word counter.
pub open spec fn winc_usize(a: int) -> int {
    if a + 1 > usize::MAX {
        0
    } else {
        a + 1
    }
}

fn wrapping_inc_usize(a: usize) -> (r: usize)
    ensures
        r as int == winc_usize(a as int),
{
    if a == usize::MAX {
        0
    } else {
        a + 1
    }
}

/// Saturating subtraction, for elapsed-time computation.
pub open spec fn sat_sub(a: u64, b: u64) -> u64 {
    if a >= b {
        (a - b) as u64
    } else {
        0
    }
}

fn saturating_sub64(a: u64, b: u64) -> (r: u64)
    ensures
        r == sat_sub(a, b),
{
    if a >= b {
        a - b
    } else {
        0
    }
}

/// The payload length as a 32-bit count (truncated, as a cast is).
pub open spec fn len32(bytes: Seq<u8>) -> u32 {
    (bytes.len() % 0x1_0000_0000) as u32
}

/// One smoothing step of the bus-load estimate: the average of the old
/// value and the instantaneous estimate `100 * (bytes * 10 + 5) / baud`,
/// truncated into 32 bits.
pub open spec fn smooth_load(load: u32, bytes_accum: u32, baud: u32) -> u32
    recommends
        baud >= 1,
{
    (((load as int + 100 * ((bytes_accum as int * 10) + 5) / (baud as int)) / 2) % 0x1_0000_0000) as u32
}

/// One smoothing step of the frames-per-second estimate.
pub open spec fn smooth_pps(pps: u32, packet_accum: u32) -> u32 {
    (((pps as int + packet_accum as int) / 2) % 0x1_0000_0000) as u32
}

/// How one tick updates one message: a slot with arrivals this tick gets
/// its period re-estimated from the arrival rate; a slot without arrivals
/// whose latest frame is older than its staleness threshold (three
/// estimated periods, at most two seconds) is marked stale and its period
/// reset.
pub open spec fn tick_message(m: MessageModel, now: u64) -> MessageModel {
    if m.count_accum > 0 {
        MessageModel { delta: (1000int / m.count_accum * 1000000) as u64, count_accum: 0, ..m }
    } else {
        let t = match m.current.time {
            Some(t) => t,
            None => sat_sub(now, 1000000000),
        };
        let expired: int = if 3 * m.delta <= 2000000000 {
            3 * m.delta
        } else {
            2000000000
        };
        if sat_sub(now, t) > expired {
            MessageModel { missing: sat_sub(now, t), delta: 0, ..m }
        } else {
            m
        }
    }
}

/// How an arriving frame updates its message slot: counters up, the frames
/// shifted, staleness cleared.
pub open spec fn arrive_message(m: MessageModel, p: FrameModel) -> MessageModel {
    MessageModel {
        count: winc_usize(m.count),
        count_accum: winc_usize(m.count_accum),
        previous: m.current,
        current: p,
        missing: 0,
        ..m
    }
}

/// The first loaded table defining an identifier, searching in load order.
pub open spec fn first_table_from(dbcs: Seq<DefTable>, id: u32, k: int) -> Option<usize>
    decreases dbcs.len() - k,
{
    if k < 0 || k >= dbcs.len() {
        None
    } else if dbcs[k].spec_has(id) {
        Some(k as usize)
    } else {
        first_table_from(dbcs, id, k + 1)
    }
}

/// The first loaded table defining the identifier, by a linear search in
/// load order.
fn find_table(dbcs: &Vec<DefTable>, id: u32) -> (r: Option<usize>)
    requires
        forall|i: int| 0 <= i < dbcs@.len() ==> (#[trigger] dbcs@[i]).wf(),
    ensures
        r == first_table_from(dbcs@, id, 0),
        r matches Some(d) ==> d < dbcs@.len() && dbcs@[d as int].spec_has(id),
{
    let mut d: usize = 0;
    while d < dbcs.len()
        invariant
            d <= dbcs@.len(),
            forall|i: int| 0 <= i < dbcs@.len() ==> (#[trigger] dbcs@[i]).wf(),
            first_table_from(dbcs@, id, 0) == first_table_from(dbcs@, id, d as int),
        decreases dbcs@.len() - d,
    {
        if dbcs[d].has_id(id) {
            proof {
                assert(first_table_from(dbcs@, id, d as int) == Some(d));
            }
            return Some(d);
        }
        d = d + 1;
    }
    None
}

/// Inserts the one new slot index into the ascending-by-identifier
/// ordering, keeping it strictly ascending.
fn insert_sorted(ordering: &mut Vec<usize>, messages: &Vec<Message>, n: usize)
    requires
        n + 1 == messages@.len(),
        old(ordering)@.len() == n,
        forall|i: int| 0 <= i < n ==> (#[trigger] old(ordering)@[i]) < n,
        forall|i: int, j: int|
            0 <= i < j < n ==> (#[trigger] messages@[old(ordering)@[i] as int])@.current.id
                < (#[trigger] messages@[old(ordering)@[j] as int])@.current.id,
        forall|i: int|
            0 <= i < n ==> (#[trigger] messages@[i])@.current.id != messages@[n as int]@.current.id,
    ensures
        final(ordering)@.len() == n + 1,
        forall|i: int| 0 <= i < n + 1 ==> (#[trigger] final(ordering)@[i]) < n + 1,
        forall|i: int, j: int|
            0 <= i < j < n + 1 ==> (#[trigger] messages@[final(ordering)@[i] as int])@.current.id
                < (#[trigger] messages@[final(ordering)@[j] as int])@.current.id,
{
    let newid = messages[n].current.id;
    let mut p: usize = 0;
    loop
        invariant_except_break
            p <= n,
            n + 1 == messages@.len(),
            ordering@.len() == n,
            newid == messages@[n as int]@.current.id,
            forall|i: int| 0 <= i < n ==> (#[trigger] ordering@[i]) < n,
            forall|i: int, j: int|
                0 <= i < j < n ==> (#[trigger] messages@[ordering@[i] as int])@.current.id
                    < (#[trigger] messages@[ordering@[j] as int])@.current.id,
            forall|i: int|
                0 <= i < n ==> (#[trigger] messages@[i])@.current.id != newid,
            forall|i: int|
                0 <= i < p ==> (#[trigger] messages@[ordering@[i] as int])@.current.id < newid,
        ensures
            p <= n,
            ordering@ == old(ordering)@,
            forall|i: int|
                0 <= i < p ==> (#[trigger] messages@[ordering@[i] as int])@.current.id < newid,
            p == n || messages@[ordering@[p as int] as int]@.current.id > newid,
        decreases n - p,
    {
        if p == ordering.len() {
            break;
        }
        if messages[ordering[p]].current.id > newid {
            break;
        }
        proof {
            assert(messages@[ordering@[p as int] as int]@.current.id != newid);
        }
        p = p + 1;
    }
    let ghost before = ordering@;
    ordering.insert(p, n);
    proof {
        let after = ordering@;
        assert(after == before.insert(p as int, n));
        assert(after.len() == n + 1);
        assert forall|i: int| 0 <= i < n + 1 implies (#[trigger] after[i]) < n + 1 by {
            if i < p {
                assert(after[i] == before[i]);
            } else if i == p {
                assert(after[i] == n);
            } else {
                assert(after[i] == before[i - 1]);
            }
        }
        assert forall|i: int, j: int|
            0 <= i < j < n + 1 implies (#[trigger] messages@[after[i] as int])@.current.id < (
        #[trigger] messages@[after[j] as int])@.current.id by {
            if i < p {
                assert(after[i] == before[i]);
            } else if i == p {
                assert(after[i] == n);
            } else {
                assert(after[i] == before[i - 1]);
            }
            if j < p {
                assert(after[j] == before[j]);
            } else if j == p {
                assert(after[j] == n);
            } else {
                assert(after[j] == before[j - 1]);
            }
            if j == p {
                // everything before the insertion point is below the new id
                assert(messages@[before[i] as int]@.current.id < newid);
            } else if i == p {
                // everything at and after the insertion point is above it
                assert(p < n);
                assert(messages@[before[p as int] as int]@.current.id > newid);
                if j - 1 > p {
                    assert(messages@[before[p as int] as int]@.current.id <= messages@[before[j - 1]
                        as int]@.current.id);
                }
            } else if i < p && j - 1 >= p {
                assert(messages@[before[i] as int]@.current.id < newid);
                assert(messages@[before[p as int] as int]@.current.id > newid);
                if j - 1 > p {
                    assert(messages@[before[p as int] as int]@.current.id <= messages@[before[j - 1]
                        as int]@.current.id);
                }
            }
        }
    }
}

// ---------------------------------------------------------------------------
// The engine.
// ---------------------------------------------------------------------------

/// Statistics for one bus channel.
pub struct Stats {
    /// Baud rate used to compute bus load.
    pub baud: u32,
    /// Total number of bytes received.
    pub bytes: u32,
    /// Total number of packets received.
    pub packets: u32,
    /// Computed bus load, smoothed, in percent.
    pub load: u32,
    /// Packets per second, smoothed.
    pub pps: u32,
    /// One state slot per distinct identifier, in order of first sight.
    pub messages: Vec<Message>,
    /// Identifier to slot index; slots are never reassigned or removed.
    pub ids: HashMapWithView<u32, usize>,
    /// Bytes received since the last tick.
    pub bytes_accum: u32,
    /// Packets received since the last tick.
    pub packet_accum: u32,
    /// The loaded definition tables, in load order.
    pub dbcs: Vec<DefTable>,
    /// Whether the display ordering is up to date.
    pub sorted: bool,
    /// Slot indices in ascending identifier order.
    pub ordering: Vec<usize>,
    /// The instant of the last applied tick, in nanoseconds.
    pub time: Option<u64>,
}

impl Stats {
    pub open spec fn models(&self) -> Seq<MessageModel> {
        self.messages@.map_values(|m: Message| m@)
    }

    /// The engine invariant: a positive baud rate; the identifier map is a
    /// bijection onto the slots; the ordering is a permutation of the slots
    /// in strictly ascending identifier order and is up to date; loaded
    /// tables are well-formed and every slot's table handle is in range.
    pub open spec fn wf(&self) -> bool {
        &&& self.baud >= 1
        &&& forall|i: int|
            0 <= i < self.messages@.len() ==> self.ids@.contains_key(
                (#[trigger] self.messages@[i])@.current.id,
            ) && self.ids@[self.messages@[i]@.current.id] == i
        &&& forall|k: u32| #[trigger]
            self.ids@.contains_key(k) ==> self.ids@[k] < self.messages@.len()
                && self.messages@[self.ids@[k] as int]@.current.id == k
        &&& self.sorted
        &&& self.ordering@.len() == self.messages@.len()
        &&& forall|i: int|
            0 <= i < self.ordering@.len() ==> (#[trigger] self.ordering@[i]) < self.messages@.len()
        &&& forall|i: int, j: int|
            0 <= i < j < self.ordering@.len() ==> (#[trigger] self.messages@[self.ordering@[i] as int])@.current.id
                < (#[trigger] self.messages@[self.ordering@[j] as int])@.current.id
        &&& forall|i: int| 0 <= i < self.dbcs@.len() ==> (#[trigger] self.dbcs@[i]).wf()
        &&& forall|i: int|
            0 <= i < self.messages@.len() ==> match (#[trigger] self.messages@[i]).dbc {
                Some(d) => d < self.dbcs@.len(),
                None => true,
            }
    }

    /// A fresh engine for a channel with the given baud rate, created at
    /// the given instant.
    pub fn new(baud: u32, now_ns: u64) -> (r: Stats)
        requires
            baud >= 1,
        ensures
            r.wf(),
            r.baud == baud,
            r.bytes == 0,
            r.packets == 0,
            r.load == 0,
            r.pps == 0,
            r.messages@.len() == 0,
            r.bytes_accum == 0,
            r.packet_accum == 0,
            r.dbcs@.len() == 0,
            r.ordering@.len() == 0,
            r.time == Some(now_ns),
            forall|k: u32| !r.ids@.contains_key(k),
    {
        Stats {
            baud,
            bytes: 0,
            packets: 0,
            load: 0,
            pps: 0,
            messages: Vec::new(),
            ids: HashMapWithView::new(),
            bytes_accum: 0,
            packet_accum: 0,
            dbcs: Vec::new(),
            sorted: true,
            ordering: Vec::new(),
            time: Some(now_ns),
        }
    }

    /// Loads one message-definition database from its text: the load
    /// succeeds exactly when the definition parser accepts the text, and
    /// appends one table holding the validated image of what was parsed,
    /// after all earlier tables (the lookup searches in load order, so
    /// earlier files win ties). On a parse failure the engine is unchanged
    /// and the error is reported.
    pub fn add_dbc(&mut self, data: &str) -> (r: Result<(), DbcError>)
        requires
            old(self).wf(),
            old(self).dbcs@.len() < usize::MAX,
        ensures
            final(self).wf(),
            match r {
                Ok(_) => {
                    &&& spec_def_messages(data@) == Some(
                        final(self).dbcs@[final(self).dbcs@.len() - 1].messages@.map_values(
                            |m: MessageDef| m@,
                        ),
                    )
                    &&& final(self).dbcs@.len() == old(self).dbcs@.len() + 1
                    &&& final(self).dbcs@[final(self).dbcs@.len() - 1].wf()
                    &&& forall|i: int|
                        0 <= i < old(self).dbcs@.len() ==> final(self).dbcs@[i] == old(
                            self,
                        ).dbcs@[i]
                    &&& *final(self) == (Stats { dbcs: final(self).dbcs, ..*old(self) })
                },
                Err(_) => *final(self) == *old(self) && spec_def_messages(data@) is None,
            },
    {
        match build_def_table(data) {
            Ok(t) => {
                self.dbcs.push(t);
                Ok(())
            },
            Err(e) => Err(e),
        }
    }

    /// Applies the once-per-second tick at the given instant. Within a
    /// second of the last applied tick it is a no-op, so a burst of ticks
    /// cannot double-apply the smoothing. Otherwise it recomputes the
    /// smoothed load and throughput from the per-tick accumulators, zeroes
    /// them, and updates every message slot: a slot with arrivals this tick
    /// gets its period re-estimated from the arrival rate, and a slot
    /// without arrivals past its staleness threshold is marked stale.
    pub fn periodic(&mut self, now_ns: u64)
        requires
            old(self).wf(),
        ensures
            final(self).wf(),
            ({
                let gate = match old(self).time {
                    Some(t) => sat_sub(now_ns, t) < 1000000000,
                    None => true,
                };
                if gate {
                    *final(self) == *old(self)
                } else {
                    &&& final(self).time == Some(now_ns)
                    &&& final(self).load == smooth_load(
                        old(self).load,
                        old(self).bytes_accum,
                        old(self).baud,
                    )
                    &&& final(self).pps == smooth_pps(old(self).pps, old(self).packet_accum)
                    &&& final(self).bytes_accum == 0
                    &&& final(self).packet_accum == 0
                    &&& final(self).models().len() == old(self).models().len()
                    &&& forall|i: int|
                        0 <= i < old(self).models().len() ==> final(self).models()[i]
                            == tick_message(#[trigger] old(self).models()[i], now_ns)
                    &&& final(self).baud == old(self).baud
                    &&& final(self).bytes == old(self).bytes
                    &&& final(self).packets == old(self).packets
                    &&& final(self).ids@ == old(self).ids@
                    &&& final(self).ordering@ == old(self).ordering@
                    &&& final(self).dbcs@ == old(self).dbcs@
                }
            }),
    {
        let last = match self.time {
            Some(t) => t,
            None => now_ns,
        };
        if saturating_sub64(now_ns, last) < 1000000000 {
            return;
        }
        self.time = Some(now_ns);
        let x: u64 = 100u64 * (((self.bytes_accum as u64) * 10) + 5) / (self.baud as u64);
        let lv: u64 = ((self.load as u64) + x) / 2;
        self.load = (lv % 0x1_0000_0000) as u32;
        proof {
            assert(self.load == smooth_load(old(self).load, old(self).bytes_accum, old(self).baud));
        }
        let pv: u64 = ((self.pps as u64) + (self.packet_accum as u64)) / 2;
        self.pps = (pv % 0x1_0000_0000) as u32;
        self.bytes_accum = 0;
        self.packet_accum = 0;
        let ghost snap = *self;
        let mut i: usize = 0;
        while i < self.messages.len()
            invariant
                i <= self.messages@.len(),
                self.messages@.len() == snap.messages@.len(),
                self.baud == snap.baud,
                self.bytes == snap.bytes,
                self.packets == snap.packets,
                self.load == snap.load,
                self.pps == snap.pps,
                self.bytes_accum == snap.bytes_accum,
                self.packet_accum == snap.packet_accum,
                self.ids == snap.ids,
                self.dbcs == snap.dbcs,
                self.sorted == snap.sorted,
                self.ordering == snap.ordering,
                self.time == snap.time,
                forall|x: int|
                    0 <= x < i ==> self.models()[x] == tick_message(
                        #[trigger] snap.models()[x],
                        now_ns,
                    ),
                forall|x: int| i <= x < snap.models().len() ==> self.models()[x] == snap.models()[x],
            decreases self.messages@.len() - i,
        {
            let cacc = self.messages[i].count_accum;
            if cacc > 0 {
                let period: usize = 1000 / cacc;
                let delta: u64 = (period as u64) * 1000000;
                let newm = Message {
                    source: self.messages[i].source,
                    dbc: self.messages[i].dbc,
                    count: self.messages[i].count,
                    delta,
                    missing: self.messages[i].missing,
                    current: self.messages[i].current.clone(),
                    previous: self.messages[i].previous.clone(),
                    count_accum: 0,
                };
                proof {
                    assert(newm@ =~= tick_message(snap.models()[i as int], now_ns));
                }
                self.messages.set(i, newm);
            } else {
                let t: u64 = match self.messages[i].current.time {
                    Some(t) => t,
                    None => saturating_sub64(now_ns, 1000000000),
                };
                let expired: u64 = if self.messages[i].delta <= 666666666 {
                    self.messages[i].delta * 3
                } else {
                    2000000000
                };
                let elapsed = saturating_sub64(now_ns, t);
                if elapsed > expired {
                    let newm = Message {
                        source: self.messages[i].source,
                        dbc: self.messages[i].dbc,
                        count: self.messages[i].count,
                        delta: 0,
                        missing: elapsed,
                        current: self.messages[i].current.clone(),
                        previous: self.messages[i].previous.clone(),
                        count_accum: self.messages[i].count_accum,
                    };
                    proof {
                        assert(newm@ =~= tick_message(snap.models()[i as int], now_ns));
                    }
                    self.messages.set(i, newm);
                } else {
                    proof {
                        assert(self.models()[i as int] == tick_message(
                            snap.models()[i as int],
                            now_ns,
                        ));
                    }
                }
            }
            i = i + 1;
        }
        proof {
            assert forall|k: int| 0 <= k < self.messages@.len() implies (
            #[trigger] self.messages@[k])@.current == snap.messages@[k]@.current && self.messages@[
                k]@.dbc == snap.messages@[k]@.dbc by {
                assert(self.models()[k] == tick_message(snap.models()[k], now_ns));
            }
        }
    }

    /// Ingests one frame: counts it; registers its identifier on first
    /// sight, searching the loaded definition tables in load order for the
    /// first match and marking the display ordering stale; shifts the
    /// slot's current frame to previous, stores the new frame, and clears
    /// staleness. A stale ordering is rebuilt before returning.
    pub fn process_packet(&mut self, packet: &Packet)
        requires
            old(self).wf(),
        ensures
            final(self).wf(),
            final(self).packets == wadd32(old(self).packets, 1),
            final(self).packet_accum == wadd32(old(self).packet_accum, 1),
            final(self).bytes == wadd32(old(self).bytes, len32(packet.bytes@)),
            final(self).bytes_accum == wadd32(old(self).bytes_accum, len32(packet.bytes@)),
            final(self).baud == old(self).baud,
            final(self).load == old(self).load,
            final(self).pps == old(self).pps,
            final(self).time == old(self).time,
            final(self).dbcs@ == old(self).dbcs@,
            if old(self).ids@.contains_key(packet.id) {
                let idx = old(self).ids@[packet.id] as int;
                &&& final(self).ids@ == old(self).ids@
                &&& final(self).models() == old(self).models().update(
                    idx,
                    arrive_message(old(self).models()[idx], packet@),
                )
                &&& final(self).ordering@ == old(self).ordering@
            } else {
                &&& final(self).ids@ == old(self).ids@.insert(
                    packet.id,
                    old(self).messages@.len() as usize,
                )
                &&& final(self).models() == old(self).models().push(
                    arrive_message(
                        fresh_message(
                            packet.source as int,
                            first_table_from(old(self).dbcs@, packet.id, 0),
                        ),
                        packet@,
                    ),
                )
            },
    {
        self.packets = wrapping_add32(self.packets, 1);
        self.packet_accum = wrapping_add32(self.packet_accum, 1);
        let nbytes: u32 = ((packet.bytes.len() as u64) % 0x1_0000_0000) as u32;
        proof {
            assert(nbytes == len32(packet.bytes@));
        }
        self.bytes = wrapping_add32(self.bytes, nbytes);
        self.bytes_accum = wrapping_add32(self.bytes_accum, nbytes);
        let id = packet.id;
        let existing: Option<usize> = match self.ids.get(&id) {
            Some(i) => Some(*i),
            None => None,
        };
        let idx: usize;
        match existing {
            Some(i) => {
                idx = i;
            },
            None => {
                let found = find_table(&self.dbcs, id);
                let m = Message::new(packet, found);
                self.messages.push(m);
                idx = self.messages.len() - 1;
                self.ids.insert(id, idx);
                self.sorted = false;
            },
        }
        let ghost mid = *self;
        let count = wrapping_inc_usize(self.messages[idx].count);
        let cacc = wrapping_inc_usize(self.messages[idx].count_accum);
        let prev = self.messages[idx].current.clone();
        let newm = Message {
            source: self.messages[idx].source,
            dbc: self.messages[idx].dbc,
            count,
            delta: self.messages[idx].delta,
            missing: 0,
            current: packet.clone(),
            previous: prev,
            count_accum: cacc,
        };
        proof {
            assert(newm@ =~= arrive_message(mid.models()[idx as int], packet@));
        }
        self.messages.set(idx, newm);
        proof {
            assert(self.models() =~= mid.models().update(
                idx as int,
                arrive_message(mid.models()[idx as int], packet@),
            ));
            if !old(self).ids@.contains_key(packet.id) {
                assert(mid.models() =~= old(self).models().push(
                    fresh_message(
                        packet.source as int,
                        first_table_from(old(self).dbcs@, packet.id, 0),
                    ),
                ));
                assert(self.models() =~= old(self).models().push(
                    arrive_message(
                        fresh_message(
                            packet.source as int,
                            first_table_from(old(self).dbcs@, packet.id, 0),
                        ),
                        packet@,
                    ),
                ));
            } else {
                assert(self.models() =~= old(self).models().update(
                    old(self).ids@[packet.id] as int,
                    arrive_message(old(self).models()[old(self).ids@[packet.id] as int], packet@),
                ));
            }
        }
        if !self.sorted {
            insert_sorted(&mut self.ordering, &self.messages, idx);
            self.sorted = true;
        }
        proof {
            assert(self.messages@[idx as int]@.current.id == packet.id);
        }
    }

    /// The per-identifier message slots, in order of first sight.
    pub fn messages(&self) -> (r: &Vec<Message>)
        ensures
            r == &self.messages,
    {
        &self.messages
    }

    /// The display traversal: a permutation of the slot indices whose
    /// dereferenced identifiers are strictly ascending.
    pub fn ordering(&self) -> (r: &Vec<usize>)
        requires
            self.wf(),
        ensures
            r == &self.ordering,
            r@.len() == self.messages@.len(),
            forall|i: int| 0 <= i < r@.len() ==> (#[trigger] r@[i]) < self.messages@.len(),
            forall|i: int, j: int|
                0 <= i < j < r@.len() ==> (#[trigger] self.messages@[r@[i] as int])@.current.id
                    < (#[trigger] self.messages@[r@[j] as int])@.current.id,
            forall|i: int, j: int| 0 <= i < j < r@.len() ==> r@[i] != r@[j],
            forall|k: int| 0 <= k < self.messages@.len() ==> #[trigger] in_ordering(r@, k),
    {
        proof {
            assert forall|i: int, j: int| 0 <= i < j < self.ordering@.len() implies self.ordering@[i]
                != self.ordering@[j] by {
                assert(self.messages@[self.ordering@[i] as int]@.current.id < self.messages@[
                    self.ordering@[j] as int]@.current.id);
            }
            lemma_ordering_complete(self);
        }
        &self.ordering
    }

    /// The message definition matched to a slot, if its table handle names
    /// a loaded table that defines the slot's current identifier.
    pub fn dbc_message(&self, message: &Message) -> (r: Option<&MessageDef>)
        requires
            self.wf(),
        ensures
            match r {
                Some(m) => message.dbc matches Some(d) && d < self.dbcs@.len() && self.dbcs@[
                    d as int].spec_has(message.current.id) && m.id == message.current.id
                    && *m == self.dbcs@[d as int].messages@[self.dbcs@[d as int].ids@[
                    message.current.id] as int],
                None => match message.dbc {
                    Some(d) => d >= self.dbcs@.len() || !self.dbcs@[d as int].spec_has(
                        message.current.id,
                    ),
                    None => true,
                },
            },
    {
        match message.dbc {
            Some(d) => {
                if d < self.dbcs.len() {
                    match self.dbcs[d].lookup(message.current.id) {
                        Some(idx) => Some(&self.dbcs[d].messages[idx]),
                        None => None,
                    }
                } else {
                    None
                }
            },
            None => None,
        }
    }

    /// Decodes one signal of one frame against a validated definition.
    pub fn signal_text(&self, _msg: &MessageDef, sig: &SignalDef, packet: &Packet) -> (r: String)
        requires
            signal_wf(*sig),
        ensures
            r@ == spec_signal_text(*sig, packet.bytes@),
    {
        signal_value_text(sig, &packet.bytes)
    }
}

// ---------------------------------------------------------------------------
// Laws of the engine.
// ---------------------------------------------------------------------------

/// Whether a slot index appears somewhere in the ordering.
pub open spec fn in_ordering(ord: Seq<usize>, k: int) -> bool {
    exists|i: int| 0 <= i < ord.len() && ord[i] == k
}

/// The display traversal is a full permutation of the slots: it is
/// duplicate-free and strictly ascending by identifier (the engine
/// invariant), and every registered slot index appears in it.
pub proof fn lemma_ordering_complete(s: &Stats)
    requires
        s.wf(),
    ensures
        forall|k: int| 0 <= k < s.messages@.len() ==> #[trigger] in_ordering(s.ordering@, k),
{
    broadcast use vstd::seq_lib::seq_to_set_is_finite;
    broadcast use vstd::set::group_set_axioms;

    let n = s.messages@.len() as int;
    let si = s.ordering@.map_values(|u: usize| u as int);
    assert(si.no_duplicates()) by {
        assert forall|i: int, j: int| 0 <= i < j < si.len() implies si[i] != si[j] by {
            assert(s.messages@[s.ordering@[i] as int]@.current.id < s.messages@[s.ordering@[j] as int]@.current.id);
        }
    }
    si.unique_seq_to_set();
    let rng = vstd::set_lib::set_int_range(0, n);
    assert(si.to_set().subset_of(rng)) by {
        assert forall|x: int| si.to_set().contains(x) implies rng.contains(x) by {
            assert(si.contains(x));
            let i = choose|i: int| 0 <= i < si.len() && si[i] == x;
            assert(s.ordering@[i] < s.messages@.len());
        }
    }
    vstd::set_lib::lemma_int_range(0, n);
    vstd::set_lib::lemma_subset_equality(si.to_set(), rng);
    assert forall|k: int| 0 <= k < n implies #[trigger] in_ordering(s.ordering@, k) by {
        assert(rng.contains(k));
        assert(si.to_set().contains(k));
        assert(si.contains(k));
        let i = choose|i: int| 0 <= i < si.len() && si[i] == k;
        assert(s.ordering@[i] == k);
    }
}

/// A tick that finds no arrivals accumulated for a slot, with the elapsed
/// time since its latest frame past the staleness threshold, marks the slot
/// stale: the staleness becomes non-zero and the estimated period resets to
/// zero. The next arrival for that slot clears the staleness back to zero.
pub proof fn lemma_stale_marking(m: MessageModel, now: u64, p: FrameModel)
    requires
        m.count_accum == 0,
        ({
            let t = match m.current.time {
                Some(t) => t,
                None => sat_sub(now, 1000000000),
            };
            let expired: int = if 3 * m.delta <= 2000000000 {
                3 * m.delta
            } else {
                2000000000
            };
            sat_sub(now, t) > expired
        }),
    ensures
        tick_message(m, now).missing > 0,
        tick_message(m, now).delta == 0,
        arrive_message(tick_message(m, now), p).missing == 0,
{
}

/// Load smoothing is idempotent under steady-state input: at the
/// instantaneous estimate for a constant per-tick byte count the smoothed
/// value stays put, and from anywhere else it moves strictly toward that
/// value without overshooting — no drift in either direction.
pub proof fn lemma_load_smoothing_steady(load: u32, bytes_accum: u32, baud: u32)
    requires
        baud >= 1,
        100 * ((bytes_accum as int * 10) + 5) / (baud as int) <= u32::MAX,
    ensures
        ({
            let x = 100 * ((bytes_accum as int * 10) + 5) / (baud as int);
            &&& smooth_load(x as u32, bytes_accum, baud) == x
            &&& load > x ==> x <= smooth_load(load, bytes_accum, baud) < load
            &&& load <= x ==> load <= smooth_load(load, bytes_accum, baud) <= x
        }),
{
    let x = 100 * ((bytes_accum as int * 10) + 5) / (baud as int);
    assert(x >= 0) by {
        vstd::arithmetic::div_mod::lemma_div_pos_is_pos(
            100 * ((bytes_accum as int * 10) + 5),
            baud as int,
        );
    }
    assert((x + x) / 2 == x);
    assert(((x as u32) as int + x) / 2 % 0x1_0000_0000 == x);
    if load > x {
        assert((load + x) / 2 < load);
        assert((load + x) / 2 >= x);
        assert(((load as int + x) / 2) % 0x1_0000_0000 == (load as int + x) / 2);
    } else {
        assert((load + x) / 2 >= load);
        assert((load + x) / 2 <= x);
        assert(((load as int + x) / 2) % 0x1_0000_0000 == (load as int + x) / 2);
    }
}

/// Throughput smoothing is idempotent under steady-state input, in the same
/// sense.
pub proof fn lemma_pps_smoothing_steady(pps: u32, packet_accum: u32)
    ensures
        smooth_pps(packet_accum, packet_accum) == packet_accum,
        pps > packet_accum ==> packet_accum <= smooth_pps(pps, packet_accum) < pps,
        pps <= packet_accum ==> pps <= smooth_pps(pps, packet_accum) <= packet_accum,
{
}

} // verus!
