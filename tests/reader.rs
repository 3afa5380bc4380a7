use svg::reader::{CharClass, Production, Reader};

#[test]
fn reader_capture() {
    let mut reader = Reader::new("abcdefg");

    assert!(reader.consume_any("ab"));

    let content = reader.capture(&Production::Run(CharClass::AnyOf(vec!['c', 'd', 'e'])));

    assert_eq!(content.unwrap(), "cde");
}

#[test]
fn reader_consume_attribute() {
    for content in [
        "foo='bar'",
        "foo = \t 'bar'",
        "foo= \"bar\"",
        "標籤='數值'",
        "foo='&bar;'",
        "foo='bar &buz;'",
        "foo='bar &buz; qux'",
    ] {
        let mut reader = Reader::new(content);
        assert!(reader.consume_attribute(), "{}", content);
    }
    for content in [
        "foo",
        "foo bar",
        "foo=bar",
        "foo='bar",
        "foo=\"bar",
        "foo='&bar'",
        "foo='bar &bar'",
        "foo='bar &bar qux'",
    ] {
        let mut reader = Reader::new(content);
        assert!(!reader.consume_attribute(), "{}", content);
    }
}

#[test]
fn consume_comment() {
    for (content, value) in [
        ("<!-- foo --> bar", "<!-- foo -->"),
        ("<!-- foo > --> bar", "<!-- foo > -->"),
    ] {
        let mut reader = Reader::new(content);
        let value_read = reader.capture(&Production::Comment);
        assert_eq!(value_read.unwrap(), value);
    }

    let mut reader = Reader::new("<!-- B+, B, or B--->");
    assert!(!reader.consume_comment());
}

#[test]
fn reader_consume_name() {
    for (content, value) in [
        ("foo", "foo"),
        ("foo bar", "foo"),
        ("foo42 bar", "foo42"),
        ("foo-bar baz", "foo-bar"),
        ("foo/", "foo"),
    ] {
        let mut reader = Reader::new(content);
        let value_read = reader.capture(&Production::Name);
        assert_eq!(value_read.unwrap(), value);
    }
    for content in [" foo", "!foo", "<foo", "?foo"] {
        let mut reader = Reader::new(content);
        assert!(!reader.consume_name());
    }
}

#[test]
fn consume_number() {
    for (content, value) in [
        ("1 ", "1"),
        ("1a", "1"),
        ("1", "1"),
        ("-1", "-1"),
        ("+1", "+1"),
        (".1", ".1"),
        ("-.1", "-.1"),
        ("+.1", "+.1"),
        ("1.2", "1.2"),
        ("-1.2", "-1.2"),
        ("+1.2", "+1.2"),
        ("1E2", "1E2"),
        ("-1e2", "-1e2"),
        ("+1e2", "+1e2"),
        ("1.2e3", "1.2e3"),
        ("-1.2E3", "-1.2E3"),
        ("+1.2e3", "+1.2e3"),
        ("1.2e-3", "1.2e-3"),
        ("-1.2e-3", "-1.2e-3"),
        ("+1.2E-3", "+1.2E-3"),
        ("1.2E+3", "1.2E+3"),
        ("-1.2e+3", "-1.2e+3"),
        ("+1.2e+3", "+1.2e+3"),
    ] {
        let mut reader = Reader::new(content);
        let value_read = reader.capture(&Production::Number);
        assert_eq!(value_read.unwrap(), value);
    }
    for content in ["1.e2", "-1.e2", "+1.e2"] {
        let mut reader = Reader::new(content);
        assert!(reader.capture(&Production::Number).is_none());
    }
}

#[test]
fn consume_reference() {
    for (content, value) in [
        ("&#42; foo", "&#42;"),
        ("&#x42aB; foo", "&#x42aB;"),
        ("&foo; bar", "&foo;"),
    ] {
        let mut reader = Reader::new(content);
        let value_read = reader.capture(&Production::Reference);
        assert_eq!(value_read.unwrap(), value);
    }
    for content in [
        " &#42; foo",
        "#42; foo",
        "&42; foo",
        "&#42 foo",
        "&#x42z; foo",
        "&foo bar",
        "foo; bar",
    ] {
        let mut reader = Reader::new(content);
        assert!(!reader.consume_reference());
    }
}

#[test]
fn reader_consume_whitespace() {
    let mut reader = Reader::new(" \t  \n\n  \tm ");
    reader.consume_whitespace();

    assert_eq!(reader.position().0, 3);
    assert_eq!(reader.position().1, 4);
    assert_eq!(reader.offset(), 9);
}

#[test]
fn offset_counts_utf8_bytes() {
    let mut reader = Reader::new("é標x");
    assert_eq!(reader.next(), Some('é'));
    assert_eq!(reader.next(), Some('標'));
    assert_eq!(reader.offset(), 5);
    assert_eq!(reader.position(), (1, 3));
}

#[test]
fn capture_trims_white_space() {
    let mut reader = Reader::new("  foo  <bar>");
    let text = reader.capture(&Production::Run(CharClass::Not('<')));
    assert_eq!(text.unwrap(), "foo");
    assert_eq!(reader.peek(), Some('<'));

    let mut reader = Reader::new("   <bar>");
    assert!(reader.capture(&Production::Run(CharClass::Not('<'))).is_none());
    assert_eq!(reader.peek(), Some('<'));
}

#[test]
fn comment_with_inner_double_dash_fails() {
    let mut reader = Reader::new("<!-- B+, B, or B--->");
    assert!(reader.capture(&Production::Comment).is_none());
}

#[test]
fn declaration_instruction_and_tag() {
    let mut reader = Reader::new("<!DOCTYPE svg> rest");
    assert_eq!(reader.capture(&Production::Declaration).unwrap(), "<!DOCTYPE svg>");
    let mut reader = Reader::new("<?xml version='1.0'?>");
    assert_eq!(reader.capture(&Production::Instruction).unwrap(), "<?xml version='1.0'?>");
    let mut reader = Reader::new("<>");
    assert!(!reader.consume_tag());
    let mut reader = Reader::new("<a b>");
    assert!(reader.consume_tag());
    assert!(reader.is_done());
}
