use candor::decode::signal_value_text;
use candor::defs::{Dec, MuxRole, SignalDef};

fn sig(start_bit: u16, width: u16, big_endian: bool, signed: bool, factor: Dec, offset: Dec) -> SignalDef {
    SignalDef {
        name: String::from("S"),
        start_bit,
        width,
        big_endian,
        signed,
        factor,
        offset,
        unit: String::from("u"),
        mux: MuxRole::Plain,
        undecodable: false,
    }
}

const ONE: Dec = Dec { m: 1, e: 0 };
const ZERO: Dec = Dec { m: 0, e: 0 };

#[test]
fn unit_factor_decodes_to_the_raw_value() {
    // an eight-bit little-endian field holding 42
    let s = sig(0, 8, false, false, ONE, ZERO);
    let text = signal_value_text(&s, &vec![42u8, 0, 0]);
    assert_eq!(text, "42u");
}

#[test]
fn tenth_factor_decodes_with_three_decimals() {
    // factor 0.1, raw value 100
    let s = sig(0, 8, false, false, Dec { m: 1, e: 1 }, ZERO);
    let text = signal_value_text(&s, &vec![100u8]);
    assert_eq!(text, "10.000u");
}

#[test]
fn little_endian_field_across_bytes() {
    // twelve bits starting at bit 4: low nibble of byte 1 then byte 0... in
    // lsb-first numbering, bits 4..16 of [0xAB, 0xCD] read 0xCDA
    let s = sig(4, 12, false, false, ONE, ZERO);
    let text = signal_value_text(&s, &vec![0xAB, 0xCD]);
    assert_eq!(text, format!("{}u", 0xCDA));
}

#[test]
fn big_endian_field() {
    // in the most-significant-bit-first view a 16-bit field over the first
    // two bytes ends at index 15, its start bit
    let s = sig(15, 16, true, false, ONE, ZERO);
    let text = signal_value_text(&s, &vec![0x12, 0x34]);
    assert_eq!(text, format!("{}u", 0x1234));
}

#[test]
fn mirrored_extractions_agree() {
    // both encodings of one value at mirrored bit positions decode alike
    let value: u8 = 0xA5;
    let le = sig(0, 8, false, false, ONE, ZERO);
    let be = sig(7, 8, true, false, ONE, ZERO);
    let payload = vec![value];
    assert_eq!(signal_value_text(&le, &payload), signal_value_text(&be, &payload));
    assert_eq!(signal_value_text(&le, &payload), "165u");
}

#[test]
fn signed_value_below_zero_truncates_to_zero() {
    // two's-complement 0xFF is -1; the whole-number path clamps at zero
    let s = sig(0, 8, false, true, ONE, ZERO);
    let text = signal_value_text(&s, &vec![0xFF]);
    assert_eq!(text, "0u");
}

#[test]
fn signed_value_with_scaling_keeps_its_sign() {
    // factor 0.5 over two's-complement -2 shows -1.000
    let s = sig(0, 8, false, true, Dec { m: 5, e: 1 }, ZERO);
    let text = signal_value_text(&s, &vec![0xFE]);
    assert_eq!(text, "-1.000u");
}

#[test]
fn negative_offset_forces_three_decimals() {
    // factor 1 with offset -0.5 over raw 10 shows 9.500
    let s = sig(0, 8, false, false, ONE, Dec { m: -5, e: 1 });
    let text = signal_value_text(&s, &vec![10]);
    assert_eq!(text, "9.500u");
}

#[test]
fn positive_offset_in_whole_number_path() {
    // factor 1, offset 3: raw 4 shows 7, no decimals
    let s = sig(0, 8, false, false, ONE, Dec { m: 3, e: 0 });
    let text = signal_value_text(&s, &vec![4]);
    assert_eq!(text, "7u");
}

#[test]
fn multiplexed_signal_renders_empty() {
    let mut s = sig(0, 8, false, false, ONE, ZERO);
    s.mux = MuxRole::Selected(3);
    let text = signal_value_text(&s, &vec![42]);
    assert_eq!(text, "");
}

#[test]
fn window_outside_payload_renders_empty() {
    let s = sig(0, 16, false, false, ONE, ZERO);
    let text = signal_value_text(&s, &vec![42]);
    assert_eq!(text, "");
}
