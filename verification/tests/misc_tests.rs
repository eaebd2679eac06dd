use candor::{parse_source, Packet};

#[test]
fn extended_identifier_display() {
    let p = Packet { source: 0, time: None, extended: true, id: 0x101, bytes: vec![] };
    assert_eq!(p.id_string(), "00000101 ");
}

#[test]
fn standard_identifier_display() {
    let p = Packet { source: 0, time: None, extended: false, id: 0x1A, bytes: vec![] };
    assert_eq!(p.id_string(), "     01A ");
}

#[test]
fn standard_identifier_display_grows_past_three_digits() {
    let p = Packet { source: 0, time: None, extended: false, id: 0x12345, bytes: vec![] };
    assert_eq!(p.id_string(), "     12345 ");
}

#[test]
fn specifier_with_definition_file() {
    let (name, dbcs) = parse_source("can0:engine.dbc");
    assert_eq!(name, "can0");
    assert_eq!(dbcs, vec!["engine.dbc".to_string()]);
}

#[test]
fn specifier_without_definition_file() {
    let (name, dbcs) = parse_source("trace.trc");
    assert_eq!(name, "trace.trc");
    assert!(dbcs.is_empty());
}

#[test]
fn specifier_with_doubled_separator_names_no_file() {
    let (name, dbcs) = parse_source("can0::engine.dbc");
    assert_eq!(name, "can0");
    assert!(dbcs.is_empty());
}

#[test]
fn default_packet_is_empty() {
    let p = Packet::default();
    assert_eq!(p.id, 0);
    assert_eq!(p.source, 0);
    assert!(p.time.is_none());
    assert!(!p.extended);
    assert!(p.bytes.is_empty());
}
