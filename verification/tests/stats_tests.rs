use candor::stats::Stats;
use candor::Packet;

fn frame(id: u32, time: u64, bytes: Vec<u8>) -> Packet {
    Packet { source: 0, time: Some(time), extended: false, id, bytes }
}

#[test]
fn counters_follow_arrivals() {
    let mut s = Stats::new(125000, 0);
    s.process_packet(&frame(0x100, 0, vec![1, 2, 3, 4]));
    s.process_packet(&frame(0x100, 1000, vec![5, 6]));
    assert_eq!(s.packets, 2);
    assert_eq!(s.bytes, 6);
    assert_eq!(s.messages().len(), 1);
    let m = &s.messages()[0];
    assert_eq!(m.count, 2);
    assert_eq!(m.current.bytes, vec![5, 6]);
    assert_eq!(m.previous.bytes, vec![1, 2, 3, 4]);
    assert_eq!(m.missing, 0);
}

#[test]
fn ordering_is_ascending_whatever_the_arrival_order() {
    let mut s = Stats::new(125000, 0);
    for id in [0x300u32, 0x100, 0x200, 0x100, 0x300, 0x150] {
        s.process_packet(&frame(id, 0, vec![]));
    }
    let ordering = s.ordering().clone();
    assert_eq!(ordering.len(), 4);
    let ids: Vec<u32> = ordering.iter().map(|&i| s.messages()[i].current.id).collect();
    assert_eq!(ids, vec![0x100, 0x150, 0x200, 0x300]);
}

#[test]
fn repeated_identifiers_register_once() {
    let mut s = Stats::new(125000, 0);
    s.process_packet(&frame(0x42, 0, vec![]));
    s.process_packet(&frame(0x42, 1, vec![]));
    s.process_packet(&frame(0x42, 2, vec![]));
    assert_eq!(s.messages().len(), 1);
    assert_eq!(s.ordering().len(), 1);
}

#[test]
fn tick_within_a_second_is_a_no_op() {
    let mut s = Stats::new(1000, 0);
    s.process_packet(&frame(0x10, 0, vec![0; 8]));
    s.periodic(999_999_999);
    assert_eq!(s.pps, 0);
    s.periodic(1_000_000_000);
    assert_eq!(s.pps, 0); // (0 + 1) / 2
    assert_eq!(s.load, 4); // (0 + 100 * (8 * 10 + 5) / 1000) / 2
}

#[test]
fn period_is_estimated_from_the_arrival_rate() {
    let mut s = Stats::new(1000, 0);
    for t in 0..4u64 {
        s.process_packet(&frame(0x10, t, vec![]));
    }
    s.periodic(1_500_000_000);
    // four arrivals in the tick: an estimated period of 250 ms
    assert_eq!(s.messages()[0].delta, 250_000_000);
}

#[test]
fn staleness_sets_and_clears() {
    let mut s = Stats::new(1000, 0);
    s.process_packet(&frame(0x10, 0, vec![]));
    s.periodic(1_500_000_000);
    assert_eq!(s.messages()[0].delta, 1_000_000_000);
    assert_eq!(s.messages()[0].missing, 0);
    // no arrivals since; past min(3 periods, 2 s) the slot is stale
    s.periodic(3_500_000_000);
    assert_eq!(s.messages()[0].missing, 3_500_000_000);
    assert_eq!(s.messages()[0].delta, 0);
    // the next arrival clears it
    s.process_packet(&frame(0x10, 3_600_000_000, vec![]));
    assert_eq!(s.messages()[0].missing, 0);
}

#[test]
fn smoothing_settles_under_steady_input() {
    let mut s = Stats::new(1000, 0);
    let mut t: u64 = 0;
    let mut loads: Vec<u32> = Vec::new();
    for _ in 0..12 {
        for k in 0..4u64 {
            s.process_packet(&frame(0x10, t + k, vec![0; 4]));
        }
        t += 1_000_000_000;
        s.periodic(t);
        loads.push(s.load);
    }
    // steady input: 16 bytes per tick at baud 1000 estimates 16 percent;
    // the average climbs toward it and then stays put
    assert_eq!(s.pps, 3); // settles just below the 4-per-tick input
    assert_eq!(loads[10], loads[11]);
    assert!(loads[11] == 15 || loads[11] == 16);
    for w in loads.windows(2) {
        assert!(w[0] <= w[1]);
    }
}

#[test]
fn definitions_attach_on_first_sight() {
    let dbc_text = "BO_ 256 ENGINE: 8 ECU1\n SG_ SPEED : 0|8@1+ (1,0) [0|255] \"kph\" ECU2\n SG_ TEMP : 8|8@1+ (0.1,0) [0|25] \"C\" ECU2\n";
    let mut s = Stats::new(125000, 0);
    s.add_dbc(dbc_text).expect("definition text parses");
    s.process_packet(&frame(256, 0, vec![42, 100, 0, 0, 0, 0, 0, 0]));
    s.process_packet(&frame(257, 0, vec![1]));
    let with_def = &s.messages()[0];
    assert_eq!(with_def.dbc, Some(0));
    let without_def = &s.messages()[1];
    assert_eq!(without_def.dbc, None);
    let def = s.dbc_message(with_def).expect("identifier is defined");
    assert_eq!(def.name, "ENGINE");
    assert_eq!(def.signals.len(), 2);
    let speed = s.signal_text(def, &def.signals[0], &with_def.current);
    assert_eq!(speed, "42kph");
    let temp = s.signal_text(def, &def.signals[1], &with_def.current);
    assert_eq!(temp, "10.000C");
}

#[test]
fn unrepresentable_scaling_is_present_but_undecodable() {
    // a factor needing thirteen decimal places has no exact representation;
    // the signal stays in its message, marked undecodable, and renders empty
    let dbc_text = "BO_ 256 ENGINE: 8 ECU1\n SG_ FINE : 0|8@1+ (0.0001220703125,0) [0|1] \"x\" ECU2\n";
    let mut s = Stats::new(125000, 0);
    s.add_dbc(dbc_text).expect("definition text parses");
    s.process_packet(&frame(256, 0, vec![42; 8]));
    let m = &s.messages()[0];
    let def = s.dbc_message(m).expect("identifier is defined");
    assert_eq!(def.signals.len(), 1);
    assert!(def.signals[0].undecodable);
    assert_eq!(s.signal_text(def, &def.signals[0], &m.current), "");
}

#[test]
fn bad_definition_text_reports_an_error() {
    let mut s = Stats::new(125000, 0);
    let r = s.add_dbc("BO_ not a definition");
    assert!(r.is_err());
}
