//! Library for observing a CAN bus: parsing timestamped trace files,
//! decoding raw frames into physical signal values against a
//! message-definition database, and keeping live per-message statistics
//! (arrival period, staleness, bus load) for display.

use vstd::prelude::*;

pub mod dbc;
pub mod decode;
pub mod defs;
pub mod extract;
pub mod numtext;
pub mod stats;
pub mod tokens;
pub mod trace;

verus! {

use crate::numtext::{append_hex_padded, hex_str, zero_pad};

/// Mathematical model of one frame.
#[verifier::ext_equal]
pub ghost struct FrameModel {
    pub source: int,
    pub time: Option<u64>,
    pub extended: bool,
    pub id: u32,
    pub bytes: Seq<u8>,
}

/// One CAN frame: a timestamped payload tagged with its source channel.
///
/// `time` is a monotonic capture offset in nanoseconds; `id` is the
/// 11-bit (standard) or 29-bit (extended) arbitration identifier.
pub struct Packet {
    pub source: usize,
    pub time: Option<u64>,
    pub extended: bool,
    pub id: u32,
    pub bytes: Vec<u8>,
}

impl View for Packet {
    type V = FrameModel;

    open spec fn view(&self) -> FrameModel {
        FrameModel {
            source: self.source as int,
            time: self.time,
            extended: self.extended,
            id: self.id,
            bytes: self.bytes@,
        }
    }
}

impl Clone for Packet {
    fn clone(&self) -> (r: Self)
        ensures
            r@ == self@,
            r.source == self.source,
    {
        let bytes = self.bytes.clone();
        proof {
            assert(bytes@ =~= self.bytes@);
        }
        Packet { source: self.source, time: self.time, extended: self.extended, id: self.id, bytes }
    }
}

impl Default for Packet {
    /// An empty frame: channel 0, no capture time, standard id 0, no payload.
    fn default() -> (r: Self)
        ensures
            r@ == empty_frame(),
    {
        let r = Packet { source: 0, time: None, extended: false, id: 0, bytes: Vec::new() };
        proof {
            assert(r@ =~= empty_frame());
        }
        r
    }
}

pub open spec fn empty_frame() -> FrameModel {
    FrameModel { source: 0, time: None, extended: false, id: 0, bytes: Seq::empty() }
}

/// The display form of a frame identifier: extended identifiers as eight
/// zero-padded uppercase hex digits, standard ones indented and zero-padded
/// to three, each followed by one space.
pub open spec fn spec_id_string(extended: bool, id: u32) -> Seq<char> {
    if extended {
        zero_pad(hex_str(id as int), 8) + seq![' ']
    } else {
        seq![' ', ' ', ' ', ' ', ' '] + zero_pad(hex_str(id as int), 3) + seq![' ']
    }
}

impl Packet {
    pub fn id_string(&self) -> (r: String)
        ensures
            r@ == spec_id_string(self.extended, self.id),
    {
        let mut r = String::new();
        if self.extended {
            append_hex_padded(&mut r, self.id, 8);
            r.push(' ');
            proof {
                assert(r@ =~= spec_id_string(self.extended, self.id));
            }
        } else {
            r.push(' ');
            r.push(' ');
            r.push(' ');
            r.push(' ');
            r.push(' ');
            let ghost lead = r@;
            proof {
                assert(lead =~= seq![' ', ' ', ' ', ' ', ' ']);
            }
            append_hex_padded(&mut r, self.id, 3);
            r.push(' ');
            proof {
                assert(r@ =~= spec_id_string(self.extended, self.id));
            }
        }
        r
    }
}

/// A producer of frames for one channel: something that can say what it is
/// called and at what baud rate the channel runs.
pub trait Source {
    fn name(&self) -> String;

    fn baud(&self) -> u32;
}

// ---------------------------------------------------------------------------
// The per-channel specifier: `<interface>[:<definition file>]`.
// ---------------------------------------------------------------------------

/// Length of the leading run of colons.
pub open spec fn colon_run(s: Seq<char>) -> nat
    decreases s.len(),
{
    if s.len() == 0 || s[0] != ':' {
        0
    } else {
        1 + colon_run(s.drop_first())
    }
}

proof fn lemma_colon_run_at(s: Seq<char>, k: int)
    requires
        0 <= k <= s.len(),
        forall|m: int| 0 <= m < k ==> s[m] == ':',
        k == s.len() || s[k] != ':',
    ensures
        colon_run(s) == k,
    decreases s.len(),
{
    if k > 0 {
        let t = s.drop_first();
        assert forall|m: int| 0 <= m < k - 1 implies #[trigger] t[m] == ':' by {
            assert(t[m] == s[m + 1]);
        }
        if k < s.len() {
            assert(t[k - 1] == s[k]);
        }
        lemma_colon_run_at(t, k - 1);
    }
}

/// How a channel specifier splits: the name is the first maximal run of
/// non-colon characters, and what follows exactly one colon after it is a
/// definition-file path. Leading colons, or more than one colon after the
/// name, yield no definition file.
pub open spec fn spec_parse_source(s: Seq<char>) -> (Seq<char>, Seq<Seq<char>>) {
    let rest = s.skip(colon_run(s) as int);
    let e = crate::tokens::sep_run(rest, ':') as int;
    let ifname = rest.take(e);
    let rest2 = rest.skip(e);
    if colon_run(rest2) == 1 {
        (ifname, seq![rest2.skip(1)])
    } else {
        (ifname, Seq::<Seq<char>>::empty())
    }
}

/// Splits one channel specifier into the interface (or trace file) name and
/// the definition files to load for it.
pub fn parse_source(name: &str) -> (r: (String, Vec<String>))
    requires
        exists|i: int| 0 <= i < name@.len() && name@[i] != ':',
    ensures
        r.0@ == spec_parse_source(name@).0,
        r.1.deep_view() == spec_parse_source(name@).1,
{
    let ghost s = name@;
    let v = numtext::chars_of(name);
    let mut f: usize = 0;
    while f < v.len() && v[f] == ':'
        invariant
            f <= v@.len(),
            v@ == s,
            forall|m: int| 0 <= m < f ==> s[m] == ':',
        decreases v@.len() - f,
    {
        f = f + 1;
    }
    proof {
        lemma_colon_run_at(s, f as int);
        assert(f < s.len()) by {
            if f == s.len() {
                let i = choose|i: int| 0 <= i < s.len() && s[i] != ':';
                assert(s[i] == ':');
            }
        }
    }
    let mut e: usize = f;
    let mut ifname = String::new();
    while e < v.len() && v[e] != ':'
        invariant
            f <= e <= v@.len(),
            v@ == s,
            forall|m: int| f <= m < e ==> s[m] != ':',
            ifname@ == s.subrange(f as int, e as int),
        decreases v@.len() - e,
    {
        ifname.push(v[e]);
        e = e + 1;
        proof {
            assert(ifname@ =~= s.subrange(f as int, e as int));
        }
    }
    proof {
        let rest = s.skip(f as int);
        assert forall|m: int| 0 <= m < e - f implies #[trigger] rest[m] != ':' by {
            assert(rest[m] == s[f + m]);
        }
        if e < s.len() {
            assert(rest[e - f] == s[e as int]);
        }
        crate::tokens::lemma_sep_run_at(rest, ':', e - f);
        assert(rest.take(e - f) =~= s.subrange(f as int, e as int));
        assert(rest.skip(e - f) =~= s.skip(e as int));
    }
    let mut g: usize = e;
    while g < v.len() && v[g] == ':'
        invariant
            e <= g <= v@.len(),
            v@ == s,
            forall|m: int| e <= m < g ==> s[m] == ':',
        decreases v@.len() - g,
    {
        g = g + 1;
    }
    proof {
        let rest2 = s.skip(e as int);
        assert forall|m: int| 0 <= m < g - e implies #[trigger] rest2[m] == ':' by {
            assert(rest2[m] == s[e + m]);
        }
        if g < s.len() {
            assert(rest2[g - e] == s[g as int]);
        }
        lemma_colon_run_at(rest2, g - e);
    }
    let mut dbcs: Vec<String> = Vec::new();
    if g - e == 1 {
        let mut dbc = String::new();
        let mut j: usize = g;
        while j < v.len()
            invariant
                g <= j <= v@.len(),
                v@ == s,
                dbc@ == s.subrange(g as int, j as int),
            decreases v@.len() - j,
        {
            dbc.push(v[j]);
            j = j + 1;
            proof {
                assert(dbc@ =~= s.subrange(g as int, j as int));
            }
        }
        proof {
            assert(dbc@ =~= s.skip(e as int).skip(1));
        }
        let ghost dval = dbc@;
        let ghost pre_deep = dbcs.deep_view();
        dbcs.push(dbc);
        proof {
            assert(dbcs.deep_view() =~= pre_deep.push(dval));
            assert(dbcs.deep_view() =~= seq![s.skip(e as int).skip(1)]);
        }
    } else {
        proof {
            assert(dbcs.deep_view() =~= Seq::<Seq<char>>::empty());
        }
    }
    (ifname, dbcs)
}

} // verus!
