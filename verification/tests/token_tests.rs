use verilog_hex::token::{count_spaces, count_word, is_space_byte, Tokenizer};
use verilog_hex::hex::{hex_digit_of, parse_hex_bytes};

fn words(text: &str) -> Vec<&[u8]> {
    let mut cursor = Tokenizer::new(text);
    let mut found = Vec::new();
    while let Some(token) = cursor.next() {
        found.push(token);
    }
    assert_eq!(cursor.peek(), None);
    assert_eq!(cursor.next(), None);
    found
}

#[test]
fn tokens_in_order() {
    assert_eq!(words("@81000000\n09 A0"), vec!["@81000000".as_bytes(), b"09", b"A0"]);
    assert_eq!(words("a"), vec![b"a"]);
}

#[test]
fn runs_of_whitespace_collapse() {
    assert_eq!(words("  a \t\t b\r\n\r\nc\x0c\x0cd  "), vec![b"a", b"b", b"c", b"d"]);
    assert_eq!(words("\na"), vec![b"a"]);
    assert_eq!(words("a\n"), vec![b"a"]);
}

#[test]
fn no_tokens_in_blank_text() {
    assert_eq!(words(""), Vec::<&[u8]>::new());
    assert_eq!(words(" "), Vec::<&[u8]>::new());
    assert_eq!(words(" \t\r\n\x0c"), Vec::<&[u8]>::new());
}

#[test]
fn only_ascii_whitespace_separates() {
    assert_eq!(words("a\x0bb"), vec!["a\x0bb".as_bytes()]);
    assert_eq!(words("a\u{a0}b"), vec!["a\u{a0}b".as_bytes()]);
    assert_eq!(words("a\u{2003}b c"), vec!["a\u{2003}b".as_bytes(), b"c"]);
    assert_eq!(words("a\0b"), vec!["a\0b".as_bytes()]);
}

#[test]
fn agrees_with_std_splitting() {
    let texts = ["", " ", "a", " a", "a ", "ab  cd\tef\n\ngh\r\nij\x0ckl", "@10 01 // x\n"];
    for text in texts {
        let expected: Vec<&[u8]> = text.split_ascii_whitespace().map(|t| t.as_bytes()).collect();
        assert_eq!(words(text), expected);
    }
}

#[test]
fn peek_leaves_the_token() {
    let mut cursor = Tokenizer::new(" 01  02 ");
    assert_eq!(cursor.peek(), Some("01".as_bytes()));
    assert_eq!(cursor.peek(), Some("01".as_bytes()));
    assert_eq!(cursor.next(), Some("01".as_bytes()));
    assert_eq!(cursor.peek(), Some("02".as_bytes()));
    assert_eq!(cursor.next(), Some("02".as_bytes()));
    assert_eq!(cursor.peek(), None);
    assert_eq!(cursor.next(), None);
    assert_eq!(cursor.peek(), None);
}

#[test]
fn whitespace_bytes() {
    for b in 0..=255u8 {
        assert_eq!(is_space_byte(b), b.is_ascii_whitespace());
    }
}

#[test]
fn leading_runs() {
    assert_eq!(count_spaces(b"  \tab "), 3);
    assert_eq!(count_spaces(b"ab "), 0);
    assert_eq!(count_spaces(b"   "), 3);
    assert_eq!(count_spaces(b""), 0);
    assert_eq!(count_word(b"ab cd"), 2);
    assert_eq!(count_word(b" ab"), 0);
    assert_eq!(count_word(b"abc"), 3);
    assert_eq!(count_word(b""), 0);
}

#[test]
fn hex_digits() {
    for b in 0..=255u8 {
        let expected = (b as char).to_digit(16).filter(|_| b.is_ascii()).map(|d| d as u8);
        assert_eq!(hex_digit_of(b), expected);
    }
}

#[test]
fn hex_numerals() {
    assert_eq!(parse_hex_bytes(b"0", 0), Some(0));
    assert_eq!(parse_hex_bytes(b"1", 0), None);
    assert_eq!(parse_hex_bytes(b"ff", 255), Some(255));
    assert_eq!(parse_hex_bytes(b"100", 255), None);
    assert_eq!(parse_hex_bytes(b"0100", 256), Some(256));
    assert_eq!(parse_hex_bytes(b"", 255), None);
    assert_eq!(parse_hex_bytes(b"1g", 255), None);
    assert_eq!(parse_hex_bytes(b"fffg", 255), None);
    assert_eq!(parse_hex_bytes(b"8000000000000000", u64::MAX), Some(1 << 63));
    assert_eq!(parse_hex_bytes(b"ffffffffffffffff", u64::MAX), Some(u64::MAX));
    assert_eq!(parse_hex_bytes(b"ffffffffffffffff", u64::MAX - 1), None);
    assert_eq!(parse_hex_bytes(b"fffffffffffffffe", u64::MAX - 1), Some(u64::MAX - 1));
    assert_eq!(parse_hex_bytes(b"10000000000000000", u64::MAX), None);
    assert_eq!(parse_hex_bytes(b"ffffffffffffffff0", u64::MAX), None);
    assert_eq!(parse_hex_bytes(b"0c", 11), None);
    assert_eq!(parse_hex_bytes(b"0b", 11), Some(11));
    assert_eq!(parse_hex_bytes(b"9", 8), None);
}
