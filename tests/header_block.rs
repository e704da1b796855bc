use mailheaders::{DecodedValue, Error, Headers, Message};

#[test]
fn lib_simple() {
    let h = Headers::new(b"X: foo\r\nY: bar\r\n\r\nbody").ok().unwrap();
    let e = h.iter();
    assert_eq!(e.len(), 2);
    assert_eq!(e[0], ("x", vec![b"foo".as_ref()]));
    assert_eq!(e[1], ("y", vec![b"bar".as_ref()]));
}

#[test]
fn no_body() {
    let h = Headers::new(b"X: foo\r\nY: bar\r\n\r\n").ok().unwrap();
    let e = h.iter();
    assert_eq!(e[0], ("x", vec![b"foo".as_ref()]));
    assert_eq!(e[1], ("y", vec![b"bar".as_ref()]));
}

#[test]
fn lib_folding() {
    let h = Headers::new(b"X: foo\r\n \tbar\r\n\r\n").ok().unwrap();
    let e = h.iter();
    assert_eq!(e.len(), 1);
    assert_eq!(e[0], ("x", vec![b"foo\r\n \tbar".as_ref()]));
}

#[test]
fn body_offset_follows_blank_line() {
    let h = Headers::new(b"X: foo\r\nY: bar\r\n\r\nbody").ok().unwrap();
    assert_eq!(h.body_offset(), 18);
    assert_eq!(h.len(), 2);
    assert!(!h.is_empty());
}

#[test]
fn names_are_case_insensitive() {
    let h = Headers::new(b"Subject: a\r\nsubject: b\r\nX: c\r\n\r\n").ok().unwrap();
    assert_eq!(h.len(), 2);
    let e = h.iter();
    assert_eq!(e[0], ("subject", vec![b"a".as_ref(), b"b".as_ref()]));
    let all: Vec<String> = h
        .get("SUBJECT")
        .into_iter()
        .map(|r| r.unwrap().as_str().to_string())
        .collect();
    assert_eq!(all, vec!["a".to_string(), "b".to_string()]);
    assert_eq!(h.get_first("Subject").unwrap().unwrap().as_str(), "a");
}

#[test]
fn absent_name_gives_empty_result() {
    let h = Headers::new(b"X: foo\r\n\r\n").ok().unwrap();
    assert!(h.get("missing").is_empty());
    assert!(h.get_first("missing").is_none());
}

#[test]
fn lookup_decodes_values() {
    let h = Headers::new(b"Subject: =?UTF-8?Q?Caf=C3=A9?=\r\n latte\r\nTo: plain\r\n\r\n")
        .ok()
        .unwrap();
    match h.get_first("subject") {
        Some(Ok(DecodedValue::Owned(s))) => assert_eq!(s, "Café latte"),
        d => panic!("unexpected {:?}", d),
    }
    match h.get_first("to") {
        Some(Ok(DecodedValue::Borrowed(s))) => assert_eq!(s, "plain"),
        d => panic!("unexpected {:?}", d),
    }
}

#[test]
fn one_bad_value_does_not_spoil_others() {
    let h = Headers::new(b"A: =?UTF-8?Q?x\r\nA: ok\r\n\r\n").ok().unwrap();
    let vals = h.get("a");
    assert_eq!(vals.len(), 2);
    assert_eq!(vals[0].as_ref().err(), Some(&Error::UnterminatedEncodedWord));
    assert_eq!(vals[1].as_ref().ok().unwrap().as_str(), "ok");
}

#[test]
fn malformed_header_blocks() {
    assert_eq!(Headers::new(b"X foo\r\n\r\n").err(), Some(Error::MalformedHeaderBlock));
    assert_eq!(Headers::new(b"X: foo\r\n").err(), Some(Error::MalformedHeaderBlock));
    assert_eq!(Headers::new(b"X: foo").err(), Some(Error::MalformedHeaderBlock));
    assert_eq!(Headers::new(b"X: foo\r\n\rx").err(), Some(Error::MalformedHeaderBlock));
    assert_eq!(Headers::new(b"X\xff: a\r\n\r\n").err(), Some(Error::InvalidUtf8Input));
}

#[test]
fn message_headers() {
    let m = Message::from_slice(b"From: a@example.org\r\n\r\nhello");
    let h = m.headers().ok().unwrap();
    assert_eq!(h.get_first("from").unwrap().unwrap().as_str(), "a@example.org");
    assert_eq!(h.body_offset(), 23);
}

#[test]
fn lookup_keeps_the_borrowed_variant() {
    let h = Headers::new(b"X: a\r\nx: =?utf-8?Q?b_c?=\r\nY: foo\r\n bar\r\n\r\n").ok().unwrap();
    let vals = h.get("X");
    assert_eq!(vals.len(), 2);
    match &vals[0] {
        Ok(DecodedValue::Borrowed(s)) => assert_eq!(*s, "a"),
        d => panic!("unexpected {:?}", d),
    }
    match &vals[1] {
        Ok(DecodedValue::Owned(s)) => assert_eq!(s, "b c"),
        d => panic!("unexpected {:?}", d),
    }
    match h.get_first("y") {
        Some(Ok(DecodedValue::Owned(s))) => assert_eq!(s, "foo bar"),
        d => panic!("unexpected {:?}", d),
    }
}

#[test]
fn failed_lookup_leaves_other_names_intact() {
    let h = Headers::new(b"X: =?UTF-8?Z?a?=\r\nY: b\r\n\r\n").ok().unwrap();
    let x = h.get("x");
    assert_eq!(x.len(), 1);
    assert_eq!(x[0].as_ref().err(), Some(&Error::UnsupportedEncoding));
    match h.get_first("Y") {
        Some(Ok(DecodedValue::Borrowed(s))) => assert_eq!(s, "b"),
        d => panic!("unexpected {:?}", d),
    }
}
