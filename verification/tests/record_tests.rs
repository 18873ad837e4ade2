use verilog_hex::{group_new_data, DataType, ReaderError, Record};

fn data(addr: u64, value: u8) -> Result<Record, ReaderError> {
    Ok(Record::Data { addr, value: DataType::U8(value) })
}

#[test]
fn empty_token_is_a_syntax_error() {
    assert_eq!(Record::from_string("", 0), Err(ReaderError::InvalidSyntax));
    assert_eq!(Record::from_bytes(&[], 7), Err(ReaderError::InvalidSyntax));
}

#[test]
fn comment_tokens() {
    assert_eq!(Record::from_string("//", 0), Ok(Record::Comment));
    assert_eq!(Record::from_string("//comment", 0), Ok(Record::Comment));
    assert_eq!(Record::from_string("//@zz", 0), Ok(Record::Comment));
    assert_eq!(Record::from_string("///", 0), Ok(Record::Comment));
    assert_eq!(Record::from_string("/", 0), Err(ReaderError::BadNumberConversion));
    assert_eq!(Record::from_string("/1/", 0), Err(ReaderError::BadNumberConversion));
}

#[test]
fn address_directives() {
    assert_eq!(Record::from_string("@81000000", 5), Ok(Record::NewAddress(0x81000000)));
    assert_eq!(Record::from_string("@0", 5), Ok(Record::NewAddress(0)));
    assert_eq!(Record::from_string("@DeadBeef", 5), Ok(Record::NewAddress(0xdeadbeef)));
    assert_eq!(Record::from_string("@ffffffffffffffff", 5), Ok(Record::NewAddress(u64::MAX)));
    assert_eq!(Record::from_string("@FFFFFFFFFFFFFFFF", 5), Ok(Record::NewAddress(u64::MAX)));
    assert_eq!(
        Record::from_string("@0000000000000000000012", 5),
        Ok(Record::NewAddress(0x12))
    );
}

#[test]
fn malformed_address_directives() {
    let bad = Err(ReaderError::BadNumberConversion);
    assert_eq!(Record::from_string("@", 0), bad);
    assert_eq!(Record::from_string("@10000000000000000", 0), bad);
    assert_eq!(Record::from_string("@fffffffffffffffff", 0), bad);
    assert_eq!(Record::from_string("@12g4", 0), bad);
    assert_eq!(Record::from_string("@0x10", 0), bad);
    assert_eq!(Record::from_string("@+10", 0), bad);
    assert_eq!(Record::from_string("@-10", 0), bad);
    assert_eq!(Record::from_string("@@10", 0), bad);
    assert_eq!(Record::from_string("@10 ", 0), bad);
    assert_eq!(Record::from_string("@1_0", 0), bad);
    assert_eq!(Record::from_string("@\u{e9}", 0), bad);
}

#[test]
fn byte_tokens() {
    assert_eq!(Record::from_string("09", 0x81000000), data(0x81000000, 0x09));
    assert_eq!(Record::from_string("0", 3), data(3, 0));
    assert_eq!(Record::from_string("f", 3), data(3, 15));
    assert_eq!(Record::from_string("A0", 3), data(3, 0xa0));
    assert_eq!(Record::from_string("a0", 3), data(3, 0xa0));
    assert_eq!(Record::from_string("fF", u64::MAX), data(u64::MAX, 0xff));
    assert_eq!(Record::from_string("0000ff", 3), data(3, 0xff));
    assert_eq!(Record::from_bytes("7e".as_bytes(), 3), data(3, 0x7e));
}

#[test]
fn malformed_byte_tokens() {
    let bad = Err(ReaderError::BadNumberConversion);
    assert_eq!(Record::from_string("ZZ", 0), bad);
    assert_eq!(Record::from_string("100", 0), bad);
    assert_eq!(Record::from_string("fff", 0), bad);
    assert_eq!(Record::from_string("0x1", 0), bad);
    assert_eq!(Record::from_string("+1", 0), bad);
    assert_eq!(Record::from_string("-1", 0), bad);
    assert_eq!(Record::from_string("1 ", 0), bad);
    assert_eq!(Record::from_string(" 1", 0), bad);
    assert_eq!(Record::from_string("1@", 0), bad);
    assert_eq!(Record::from_string("g", 0), bad);
    assert_eq!(Record::from_string("`", 0), bad);
    assert_eq!(Record::from_string(":", 0), bad);
    assert_eq!(Record::from_string("\u{e9}", 0), bad);
    assert_eq!(Record::from_string("\u{ff11}", 0), bad);
    assert_eq!(Record::from_bytes(&[0x31, 0xff], 0), bad);
}

#[test]
fn grouping_widens_by_one_byte() {
    assert_eq!(group_new_data(DataType::U8(0x09), 0xa0), DataType::U16(0xa009));
    assert_eq!(group_new_data(DataType::U16(0xa009), 0xf3), DataType::U24(0xf3a009));
    assert_eq!(group_new_data(DataType::U24(0xf3a009), 0x22), DataType::U32(0x22f3a009));
    assert_eq!(group_new_data(DataType::U32(0x22f3a009), 0x20), DataType::U40(0x2022f3a009));
    assert_eq!(
        group_new_data(DataType::U40(0x2022f3a009), 0x34),
        DataType::U48(0x342022f3a009)
    );
    assert_eq!(
        group_new_data(DataType::U48(0x342022f3a009), 0x63),
        DataType::U56(0x63342022f3a009)
    );
    assert_eq!(
        group_new_data(DataType::U56(0x63342022f3a009), 0x84),
        DataType::U64(0x8463342022f3a009)
    );
}

#[test]
fn grouping_keeps_zero_bytes() {
    assert_eq!(group_new_data(DataType::U8(0), 0), DataType::U16(0));
    assert_eq!(group_new_data(DataType::U8(0xff), 0), DataType::U16(0x00ff));
    assert_eq!(group_new_data(DataType::U8(0), 0xff), DataType::U16(0xff00));
    assert_eq!(group_new_data(DataType::U56(0), 0xff), DataType::U64(0xff00000000000000));
}

#[test]
fn grouping_leaves_eight_bytes_alone() {
    assert_eq!(
        group_new_data(DataType::U64(0x8463342022f3a009), 0x55),
        DataType::U64(0x8463342022f3a009)
    );
    assert_eq!(group_new_data(DataType::U64(0), 0xff), DataType::U64(0));
}

#[test]
fn grouping_ors_into_stray_high_bits() {
    assert_eq!(group_new_data(DataType::U24(0xff00_0001), 0x0f), DataType::U32(0xff00_0001));
    assert_eq!(group_new_data(DataType::U40(1 << 40), 0x03), DataType::U48(3 << 40));
}

#[test]
fn width_and_value() {
    let values = [
        (DataType::U8(0xff), 1, 0xff),
        (DataType::U16(0xffff), 2, 0xffff),
        (DataType::U24(0xff_ffff), 3, 0xff_ffff),
        (DataType::U32(0xffff_ffff), 4, 0xffff_ffff),
        (DataType::U40(0xff_ffff_ffff), 5, 0xff_ffff_ffff),
        (DataType::U48(0xffff_ffff_ffff), 6, 0xffff_ffff_ffff),
        (DataType::U56(0xff_ffff_ffff_ffff), 7, 0xff_ffff_ffff_ffff),
        (DataType::U64(u64::MAX), 8, u64::MAX),
    ];
    for (value, width, number) in values {
        assert_eq!(value.width(), width);
        assert_eq!(value.value(), number);
    }
}
