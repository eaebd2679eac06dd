use candor::trace::{TrcParser, TrcVersion};

#[test]
fn version_1_0() {
    let trc = r#"
;##########################################################################
;   C:\some_file.trc
;
;    CAN activities imported from C:\some_file.trc
;    Start time: 13.11.2020 09:31:11.191
;    PCAN-Net: N/A
;    Generated by PEAK-Converter Version 2.2.4.136
;
;    Columns description:
;    ~~~~~~~~~~~~~~~~~~~~
;    +-current number in actual sample
;    |       +time offset of message (ms)
;    |       |         +ID of message (hex)
;    |       |         |     +data length code
;    |       |         |     |   +data bytes (hex) ...
;    |       |         |     |   |
;----+-   ---+---  ----+---  +  -+ -- -- ...
     1)     17535  00000101  8  00 00 00 00 00 00 00 00
     2)     17540  FFFFFFFF  4  00 00 00 08 -- -- -- -- BUSHEAVY
     3)     17700  00000100  8  00 00 00 00 00 00 00 00
     4)     17873  00000100  8  00 00 00 00 00 00 00 00
     5)     19295      0000  8  00 00 00 00 00 00 00 00
     6)     19500      0000  8  00 00 00 00 00 00 00 00
     7)     19705      0000  8  00 00 00 00 00 00 00 00
     8)     20592  00000100  8  00 00 00 00 00 00 00 00
     9)     20798  00000100  8  00 00 00 00 00 00 00 00
    10)     20956  00000100  8  00 00 00 00 00 00 00 00
    11)     21097  00000100  8  00 00 00 00 00 00 00 00
"#;
    let data = TrcParser::new_from_text(trc, 0, false);
    assert!(data.is_ok());
    let data = data.unwrap();
    assert_eq!(data.version, TrcVersion::V1_0);
    assert_eq!(data.packets.len(), 10);
    assert_eq!(data.packets[0].id, 0x101);
    assert!(data.packets[0].extended);
    assert_eq!(data.packets[4].id, 0x0);
    assert!(!data.packets[4].extended);
}

#[test]
fn version_1_1() {
    let trc = r#"
;$FILEVERSION=1.1
;$STARTTIME=44548.6028595139
;
;   Start time: 18.12.2021 14:28:07.062.0
;   Generated by PCAN-View v5.0.0.814
;
;   Message Number
;   |         Time Offset (ms)
;   |         |        Type
;   |         |        |        ID (hex)
;   |         |        |        |     Data Length
;   |         |        |        |     |   Data Bytes (hex) ...
;   |         |        |        |     |   |
;---+--   ----+----  --+--  ----+---  +  -+ -- -- -- -- -- -- --
     1)     17535.4  Tx     00000100  8  00 00 00 00 00 00 00 00
     2)     17540.3  Warng  FFFFFFFF  4  00 00 00 08  BUSHEAVY
     3)     17700.3  Tx     00000100  8  00 00 00 00 00 00 00 00
     4)     17873.8  Tx     00000100  8  00 00 00 00 00 00 00 00
     5)     19295.4  Tx         0000  8  00 00 00 00 00 00 00 00
     6)     19500.6  Tx         0000  8  00 00 00 00 00 00 00 00
     7)     19705.2  Tx         0000  8  00 00 00 00 00 00 00 00
     8)     20592.7  Tx     00000100  8  00 00 00 00 00 00 00 00
     9)     20798.6  Tx     00000100  8  00 00 00 00 00 00 00 00
    10)     20956.0  Tx     00000100  8  00 00 00 00 00 00 00 00
    11)     21097.1  Tx     00000100  8  00 00 00 00 00 00 00 00
"#;
    let data = TrcParser::new_from_text(trc, 0, false);
    assert!(data.is_ok());
    let data = data.unwrap();
    assert_eq!(data.version, TrcVersion::V1_1);
    assert_eq!(data.packets.len(), 10);
    assert_eq!(data.packets[0].id, 0x100);
    assert!(data.packets[0].extended);
    assert_eq!(data.packets[4].id, 0x0);
    assert!(!data.packets[4].extended);
}

#[test]
fn version_1_3() {
    let trc = r#"
;$FILEVERSION=1.3
;$STARTTIME=44548.6028595139
;
;   C:\test.trc
;   Start time: 18.12.2021 14:28:07.062.0
;   Generated by PCAN-Explorer v5.4.0
;-------------------------------------------------------------------------------
;   Bus  Name   Connection                 Protocol  Bit rate
;   1    PCAN   Untitled@pcan_usb          CAN       500 kbit/s
;   2    PTCAN  PCANLight_USB_16@pcan_usb  CAN
;-------------------------------------------------------------------------------
;   Message Number
;   |         Time Offset (ms)
;   |         |       Bus
;   |         |       |    Type
;   |         |       |    |       ID (hex)
;   |         |       |    |       |    Reserved
;   |         |       |    |       |    |   Data Length Code
;   |         |       |    |       |    |   |    Data Bytes (hex) ...
;   |         |       |    |       |    |   |    |
;   |         |       |    |       |    |   |    |
;---+-- ------+------ +- --+-- ----+--- +- -+-- -+ -- -- -- -- -- -- --
     1)        17535.4 1  Tx    00000103 -  8    00 00 00 00 00 00 00 00
     2)        17700.3 1  Tx    00000100 -  8    00 00 00 00 00 00 00 00
     3)        17873.8 1  Tx    00000101 -  0
     4)        19295.4 1  Tx        0000 -  8    00 00 00 00 00 00 00 00
     5)        19500.6 1  Tx        0000 -  8    00 00 00 00 00 00 00 00
     6)        19705.2 1  Tx        0000 -  8    00 00 00 00 00 00 00 00
     7)        20592.7 1  Tx    00000100 -  8    00 00 00 00 00 00 00 00
     8)        20798.6 1  Tx    00000100 -  8    00 00 00 00 00 00 00 00
     9)        20956.0 1  Tx    00000100 -  8    55 00 00 00 00 00 00 00
    10)        21097.1 1  Tx    00000100 -  8    00 00 00 00 00 00 00 00
"#;
    let data = TrcParser::new_from_text(trc, 0, false);
    assert!(data.is_ok());
    let data = data.unwrap();
    assert_eq!(data.version, TrcVersion::V1_3);
    assert_eq!(data.packets.len(), 10);
    assert_eq!(data.packets[0].id, 0x103);
    assert!(data.packets[0].extended);
    assert_eq!(data.packets[2].bytes.len(), 0);
    assert_eq!(data.packets[4].id, 0x0);
    assert!(!data.packets[4].extended);
    assert_eq!(data.packets[8].bytes[0], 0x55);
}

#[test]
fn version_2_0() {
    let trc = r#"
;$FILEVERSION=2.0
;$STARTTIME=44548.6028595139
;$COLUMNS=N,O,T,I,d,l,D
;
;   C:\Users\User\Desktop\python-can\test\data\test_CanMessage_V2_0_BUS1.trc
;   Start time: 18.12.2021 14:28:07.062.001
;   Generated by PEAK-Converter Version 2.2.4.136
;   Data imported from C:\Users\User\Desktop\python-can\test\data\test_CanMessage_V1_1.trc
;-------------------------------------------------------------------------------
;   Connection                 Bit rate
;   N/A                        N/A
;-------------------------------------------------------------------------------
;   Message   Time    Type ID     Rx/Tx
;   Number    Offset  |    [hex]  |  Data Length
;   |         [ms]    |    |      |  |  Data [hex] ...
;   |         |       |    |      |  |
;---+-- ------+------ +- --+----- +- +- +- -- -- -- -- -- -- --
      1     17535.400 DT 00000100 Tx 8  00 00 00 00 00 00 00 00
      2     17540.300 ST          Rx    00 00 00 08
      3     17700.300 DT 00000100 Tx 8  00 00 00 00 00 00 00 00
      4     17873.800 DT 00000100 Tx 8  00 00 00 00 00 00 00 00
      5     19295.400 DT     0000 Tx 8  00 00 00 00 00 00 00 00
      6     19500.600 DT     0000 Tx 8  00 00 00 00 00 00 00 00
      7     19705.200 DT     0000 Tx 8  00 00 00 00 00 00 00 00
      8     20592.700 DT 00000100 Tx 8  00 00 00 00 00 00 00 00
      9     20798.600 DT 00000100 Tx 8  00 00 00 00 00 00 00 00
     10     20956.000 DT 00000100 Tx 8  00 00 00 00 00 00 00 00
     11     21097.100 DT 00000100 Tx 8  00 00 00 00 00 00 00 00
"#;
    let data = TrcParser::new_from_text(trc, 0, false);
    assert!(data.is_ok());
    let data = data.unwrap();
    assert_eq!(data.version, TrcVersion::V2_0);
    assert_eq!(data.packets.len(), 10);
    assert_eq!(data.packets[0].id, 0x100);
    assert!(data.packets[0].extended);
    assert_eq!(data.packets[4].id, 0x0);
    assert!(!data.packets[4].extended);
}

#[test]
fn version_2_1() {
    let trc = r#"
;$FILEVERSION=2.1
;$STARTTIME=44548.6028595139
;$COLUMNS=N,O,T,B,I,d,R,L,D
;
;   C:\Users\User\Desktop\python-can\test\data\test_CanMessage_V2_1.trc
;   Start time: 18.12.2021 14:28:07.062.001
;   Generated by PEAK-Converter Version 2.2.4.136
;   Data imported from C:\Users\User\Desktop\python-can\test\data\test_CanMessage_V1_1.trc
;-------------------------------------------------------------------------------
;   Bus   Name            Connection               Protocol
;   N/A   N/A             N/A                      N/A
;-------------------------------------------------------------------------------
;   Message   Time    Type    ID     Rx/Tx
;   Number    Offset  |  Bus  [hex]  |  Reserved
;   |         [ms]    |  |    |      |  |  Data Length Code
;   |         |       |  |    |      |  |  |    Data [hex] ...
;   |         |       |  |    |      |  |  |    |
;---+-- ------+------ +- +- --+----- +- +- +--- +- -- -- -- -- -- -- --
      1     17535.400 DT 1  00000201 Tx -  8    02 00 01 00 00 00 00 00
      2     17540.300 ST 1         - Rx -  4    00 00 00 08
      3     17700.300 DT 1  00000100 Tx -  8    00 00 00 00 00 00 00 00
      4     17873.800 DT 1  00000100 Tx -  8    00 00 00 00 00 00 00 00
      5     19295.400 DT 1      0000 Tx -  8    00 00 00 00 00 00 00 00
      6     19500.600 DT 1      0000 Tx -  8    00 00 00 00 00 00 00 00
      7     19705.200 DT 1      0000 Tx -  8    00 00 00 00 00 00 00 00
      8     20592.700 DT 1  00000100 Tx -  8    00 00 00 00 00 00 00 00
      9     20798.600 DT 1  00000100 Tx -  8    00 00 00 00 00 00 00 00
     10     20956.000 DT 1  00000100 Tx -  8    00 00 00 00 00 00 00 00
     11     21097.100 DT 1  00000100 Tx -  8    00 00 00 00 00 00 00 FF
"#;
    let data = TrcParser::new_from_text(trc, 0, false);
    assert!(data.is_ok());
    let data = data.unwrap();
    assert_eq!(data.version, TrcVersion::V2_1);
    assert_eq!(data.packets.len(), 10);
    assert_eq!(data.packets[0].id, 0x201);
    assert!(data.packets[0].extended);
    assert_eq!(data.packets[4].id, 0x0);
    assert!(!data.packets[4].extended);
    assert_eq!(data.packets[9].bytes[7], 0xff);
}
