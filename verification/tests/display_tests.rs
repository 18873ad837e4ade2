use verilog_hex::{DataType, ReaderError, Record};

#[test]
fn markers_as_text() {
    assert_eq!(Record::EndOfFile.to_string(), "EOF");
    assert_eq!(Record::Comment.to_string(), "comment");
}

#[test]
fn addresses_as_text() {
    assert_eq!(Record::NewAddress(0x81000000).to_string(), "new address: 0x81000000");
    assert_eq!(Record::NewAddress(0).to_string(), "new address: 0x00000000");
    assert_eq!(Record::NewAddress(0xabc).to_string(), "new address: 0x00000ABC");
    assert_eq!(Record::NewAddress(0x1_2345_6789).to_string(), "new address: 0x123456789");
    assert_eq!(Record::NewAddress(u64::MAX).to_string(), "new address: 0xFFFFFFFFFFFFFFFF");
}

#[test]
fn values_as_text() {
    let byte = Record::Data { addr: 0x81000000, value: DataType::U8(0x09) };
    assert_eq!(byte.to_string(), "0x81000000: 09");
    let byte = Record::Data { addr: 0x81000001, value: DataType::U8(0xa0) };
    assert_eq!(byte.to_string(), "0x81000001: A0");
    let word = Record::Data { addr: 0x81000000, value: DataType::U64(0x8463342022F3A009) };
    assert_eq!(word.to_string(), "0x81000000: 8463342022F3A009");
    let word = Record::Data { addr: 0x10, value: DataType::U24(0x0a0b0c) };
    assert_eq!(word.to_string(), "0x00000010: A0B0C");
    let zero = Record::Data { addr: u64::MAX, value: DataType::U64(0) };
    assert_eq!(zero.to_string(), "0xFFFFFFFFFFFFFFFF: 00");
}

#[test]
fn digits_show_magnitude_not_width() {
    let small = Record::Data { addr: 0, value: DataType::U32(0x00000005) };
    assert_eq!(small.to_string(), "0x00000000: 05");
    let small = Record::Data { addr: 0, value: DataType::U16(0x0100) };
    assert_eq!(small.to_string(), "0x00000000: 100");
}

#[test]
fn text_agrees_with_std_formatting() {
    let numbers = [0u64, 1, 9, 10, 15, 16, 0xff, 0x100, 0xfff_ffff, 0x1000_0000, 0xffff_ffff,
        0x1_0000_0000, 0x1234_5678_9abc_def0, u64::MAX];
    for n in numbers {
        assert_eq!(Record::NewAddress(n).to_string(), format!("new address: {:#010X}", n));
        let data = Record::Data { addr: n, value: DataType::U64(n) };
        assert_eq!(data.to_string(), format!("{:#010X}: {:02X}", n, n));
    }
}

#[test]
fn errors_as_text() {
    assert_eq!(ReaderError::InvalidSyntax.to_string(), "invalid format");
    assert_eq!(
        ReaderError::BadNumberConversion.to_string(),
        "cant convert string to number"
    );
}
