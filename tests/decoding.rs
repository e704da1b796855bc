use mailheaders::{decode, hex_to_val, DecodedValue, Error};

fn expect_borrowed(input: &[u8], expect: &str) {
    match decode(input) {
        Ok(DecodedValue::Borrowed(s)) => assert_eq!(s, expect),
        d => panic!("incorrect variant {:?}", d),
    }
}

fn expect_owned(input: &[u8], expect: &str) {
    match decode(input) {
        Ok(DecodedValue::Owned(s)) => assert_eq!(s, expect),
        d => panic!("incorrect variant {:?}", d),
    }
}

fn expect_error(input: &[u8], expect: Error) {
    match decode(input) {
        Err(e) => assert_eq!(e, expect),
        d => panic!("expected an error, got {:?}", d),
    }
}

#[test]
fn decoder_simple() {
    expect_borrowed(b"abc", "abc");
    expect_borrowed(b"=foo", "=foo");
    expect_borrowed(b"====", "====");
}

#[test]
fn decoder_folding() {
    expect_owned(b"ab\r\n    c", "ab c");
}

#[test]
fn rfc2047_quoted() {
    expect_owned(
        b"=?UTF-8?Q?Foo_=C3=87ar?= <baz@example.org>",
        "Foo Çar <baz@example.org>",
    );
    expect_owned(b"=?UTF-8?Q?Paper_R=c3=bcck?= crud", "Paper Rück crud");
    expect_owned(b"=?ISO-8859-1?Q?Question??=", "Question?");
}

#[test]
fn rfc2047_b64() {
    expect_owned(
        b"=?UTF-8?B?ScOxdMOrcm7DonRpw7Ruw6BsaXrDpnRpw7hu?=",
        "Iñtërnâtiônàlizætiøn",
    );
    expect_owned(b"=?utf-8?B?SW50ZXJu?=\r\n =?utf-8?Q?foo?=", "Intern foo");
}

#[test]
fn plain_value_borrows_the_same_bytes() {
    let input: &[u8] = b"Hello, world <someone@example.org>";
    match decode(input) {
        Ok(DecodedValue::Borrowed(s)) => {
            assert_eq!(s.as_ptr(), input.as_ptr());
            assert_eq!(s.len(), input.len());
        }
        d => panic!("incorrect variant {:?}", d),
    }
    expect_borrowed(b"", "");
    expect_borrowed("Grüße".as_bytes(), "Grüße");
}

#[test]
fn lone_equals_is_plain_text() {
    expect_borrowed(b"a=b", "a=b");
    expect_borrowed(b"x=", "x=");
    expect_owned(b"x==?UTF-8?Q?a?=", "x=a");
    expect_owned(b"a=\r\n b", "a= b");
}

#[test]
fn lone_carriage_return_is_plain_text() {
    expect_borrowed(b"a\rb", "a\rb");
    expect_borrowed(b"a\r\nb", "a\r\nb");
    expect_borrowed(b"a\r", "a\r");
}

#[test]
fn each_fold_becomes_one_space() {
    expect_owned(b"a\r\n \r\n b", "a  b");
    expect_owned(b"a\r\n\t=?UTF-8?Q?x?=\r\n y", "a x y");
}

#[test]
fn fold_width_does_not_matter() {
    expect_owned(b"a\r\n b", "a b");
    expect_owned(b"a\r\n\t \t b", "a b");
    expect_owned(b"a\r\n =?UTF-8?Q?x?=", "a x");
}

#[test]
fn adjacent_words_are_concatenated() {
    expect_owned(b"=?UTF-8?Q?a?==?UTF-8?Q?b?=", "ab");
    expect_owned(b"=?UTF-8?Q?a?= =?UTF-8?Q?b?=", "a b");
}

#[test]
fn latin1_escape_is_converted() {
    expect_owned(b"=?ISO-8859-1?q?caf=E9?=", "café");
    expect_owned(b"=?utf-8?b?Y2Fmw6k=?=", "café");
}

#[test]
fn q_question_mark_before_other_byte_is_literal() {
    expect_owned(b"=?UTF-8?Q?a?b?=", "a?b");
    expect_owned(b"=?UTF-8?Q?a?_b?=", "a?_b");
}

#[test]
fn decode_errors() {
    expect_error(b"=?UTF-8?Q?abc", Error::UnterminatedEncodedWord);
    expect_error(b"=?UTF-8", Error::UnterminatedEncodedWord);
    expect_error(b"=?", Error::UnterminatedEncodedWord);
    expect_error(b"=?UTF-8?B?SW50ZXJu?x", Error::UnterminatedEncodedWord);
    expect_error(b"=?UTF-8?X?abc?=", Error::UnsupportedEncoding);
    expect_error(b"=?bogus-charset?Q?abc?=", Error::UnknownCharset);
    expect_error(b"=?bogus-charset?B?SW50ZXJu?=", Error::UnknownCharset);
    expect_error(b"=?UTF-8?B?S!!?=", Error::InvalidBase64);
    expect_error(b"=?UTF-8?Q?=ZZ?=", Error::InvalidQuotedPrintableEscape);
    expect_error(b"==?", Error::UnterminatedEncodedWord);
    expect_error(b"\r=?a?Z?b?=", Error::UnsupportedEncoding);
    expect_error(b"a\r\n  ", Error::MalformedFold);
    expect_error(b"a\xffb", Error::InvalidUtf8Input);
}

#[test]
fn decoded_value_accessors() {
    let d = decode(b"plain").unwrap();
    assert!(d.is_borrowed());
    assert_eq!(d.as_str(), "plain");
    let d = decode(b"x\r\n y").unwrap();
    assert!(!d.is_borrowed());
    assert_eq!(d.as_str(), "x y");
}

#[test]
fn hex_digits() {
    assert_eq!(hex_to_val(b'0'), 0);
    assert_eq!(hex_to_val(b'9'), 9);
    assert_eq!(hex_to_val(b'a'), 10);
    assert_eq!(hex_to_val(b'F'), 15);
    assert_eq!(hex_to_val(b'c'), 12);
    assert_eq!(hex_to_val(b'f'), 15);
    assert_eq!(hex_to_val(b'A'), 10);
}
