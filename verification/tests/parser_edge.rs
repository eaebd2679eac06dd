use candor::trace::{TrcError, TrcParser, TrcVersion};

#[test]
fn directive_without_value_is_fatal() {
    let trc = ";$FILEVERSION\n";
    let data = TrcParser::new_from_text(trc, 0, false);
    assert!(matches!(data, Err(TrcError::InvalidDirective)));
}

#[test]
fn unknown_version_is_fatal() {
    let trc = ";$FILEVERSION=3.0\n";
    let data = TrcParser::new_from_text(trc, 0, false);
    assert!(matches!(data, Err(TrcError::UnknownVersion)));
}

#[test]
fn version_one_zero_directive_is_accepted() {
    let trc = ";$FILEVERSION=1.0\n     1)     17535  00000101  2  12 34\n";
    let data = TrcParser::new_from_text(trc, 0, false).unwrap();
    assert_eq!(data.version, TrcVersion::V1_0);
    assert_eq!(data.packets.len(), 1);
    assert_eq!(data.packets[0].bytes, vec![0x12, 0x34]);
}

#[test]
fn short_row_is_fatal() {
    let trc = "     1)     17535\n";
    let data = TrcParser::new_from_text(trc, 0, false);
    assert!(matches!(data, Err(TrcError::MissingColumn)));
}

#[test]
fn bad_time_is_fatal() {
    // the oldest dialect reads its time column as hexadecimal
    let trc = "     1)     xyz  00000101  8  00 00 00 00 00 00 00 00\n";
    let data = TrcParser::new_from_text(trc, 0, false);
    assert!(matches!(data, Err(TrcError::BadTime)));
}

#[test]
fn bad_id_is_fatal() {
    let trc = "     1)     17535  nothex  8  00 00 00 00 00 00 00 00\n";
    let data = TrcParser::new_from_text(trc, 0, false);
    assert!(matches!(data, Err(TrcError::BadId)));
}

#[test]
fn bad_length_is_fatal() {
    let trc = "     1)     17535  00000101  zz  00\n";
    let data = TrcParser::new_from_text(trc, 0, false);
    assert!(matches!(data, Err(TrcError::BadLength)));
}

#[test]
fn remote_request_row_is_skipped() {
    let trc = "     1)     17535  00000101  2  RTR\n     2)     17536  00000101  2  12 34\n";
    let data = TrcParser::new_from_text(trc, 0, false).unwrap();
    assert_eq!(data.packets.len(), 1);
    assert_eq!(data.packets[0].bytes, vec![0x12, 0x34]);
}

#[test]
fn missing_data_bytes_skip_the_row() {
    let trc = "     1)     17535  00000101  4  12 34\n     2)     17536  00000101  1  55\n";
    let data = TrcParser::new_from_text(trc, 0, false).unwrap();
    assert_eq!(data.packets.len(), 1);
    assert_eq!(data.packets[0].bytes, vec![0x55]);
}

#[test]
fn malformed_byte_reads_as_zero() {
    let trc = "     1)     17535  00000101  3  12 xx 34\n";
    let data = TrcParser::new_from_text(trc, 0, false).unwrap();
    assert_eq!(data.packets.len(), 1);
    assert_eq!(data.packets[0].bytes, vec![0x12, 0x00, 0x34]);
}

#[test]
fn hex_time_scaling_of_oldest_dialect() {
    // 0x10 milliseconds, scaled to nanoseconds
    let trc = "     1)     10  0101  1  55\n";
    let data = TrcParser::new_from_text(trc, 0, false).unwrap();
    assert_eq!(data.packets[0].time, Some(16_000_000));
}

#[test]
fn decimal_time_scales_fractions_exactly() {
    let trc = ";$FILEVERSION=1.1\n 1)  17535.4  Tx  0100  1  55\n";
    let data = TrcParser::new_from_text(trc, 0, false).unwrap();
    assert_eq!(data.packets[0].time, Some(17_535_400_000));
}

#[test]
fn decimal_time_fraction_truncates_below_one_nanosecond() {
    // 1.1234567 ms is 1 123 456.7 ns; the sub-nanosecond digit truncates
    let trc = ";$FILEVERSION=1.1\n 1)  1.1234567  Tx  0100  1  55\n";
    let data = TrcParser::new_from_text(trc, 0, false).unwrap();
    assert_eq!(data.packets[0].time, Some(1_123_456));
}

#[test]
fn synchronized_origin_rebases_timestamps() {
    let trc = ";$FILEVERSION=1.1\n\
         1)  17535.4  Tx  0100  1  55\n\
         2)  17700.3  Tx  0101  1  66\n";
    let plain = TrcParser::new_from_text(trc, 0, false).unwrap();
    assert_eq!(plain.packets[0].time, Some(17_535_400_000));
    assert_eq!(plain.packets[1].time, Some(17_700_300_000));
    let synced = TrcParser::new_from_text(trc, 0, true).unwrap();
    assert_eq!(synced.packets[0].time, Some(0));
    assert_eq!(synced.packets[1].time, Some(164_900_000));
}

#[test]
fn frames_keep_their_channel_index() {
    let trc = "     1)     17535  0101  1  55\n";
    let data = TrcParser::new_from_text(trc, 7, false).unwrap();
    assert_eq!(data.packets[0].source, 7);
}

#[test]
fn bus_role_shifts_the_identifier_column() {
    let trc = ";$FILEVERSION=2.0\n;$COLUMNS=N,O,T,B,I,l,D\n\
          1     100.000 DT 1 00000300 Tx 2  aa bb\n";
    let data = TrcParser::new_from_text(trc, 0, false).unwrap();
    assert_eq!(data.packets.len(), 1);
    assert_eq!(data.packets[0].id, 0x300);
    assert_eq!(data.packets[0].bytes, vec![0xaa, 0xbb]);
}

#[test]
fn two_x_row_without_frame_type_is_skipped() {
    let trc = ";$FILEVERSION=2.0\n;$COLUMNS=N,O,T,I,d,l,D\n\
          1     17535.400 DT 00000100 Tx 1  aa\n\
          2     17540.300 XX 00000100 Tx 1  bb\n";
    let data = TrcParser::new_from_text(trc, 0, false).unwrap();
    assert_eq!(data.packets.len(), 1);
    assert_eq!(data.packets[0].bytes, vec![0xaa]);
}
