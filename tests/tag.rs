use svg::tag::{read_attribute, Tag, Type};

#[test]
fn tag_parser_process() {
    for (content, kind) in [
        ("foo", Type::Start),
        ("foo ", Type::Start),
        ("/foo", Type::End),
        ("/foo ", Type::End),
        ("foo/", Type::Empty),
        ("foo /", Type::Empty),
    ] {
        match Tag::parse(content) {
            Ok(Tag(name, found, _)) => {
                assert_eq!(name, "foo");
                assert_eq!(found, kind);
            }
            Err(_) => unreachable!(),
        }
    }
}

#[test]
fn tag_parser_read_attribute() {
    for (content, name, value) in [
        ("foo=''", "foo", ""),
        ("foo='bar'", "foo", "bar"),
        ("foo =\"bar\"", "foo", "bar"),
        ("foo= \"bar\"", "foo", "bar"),
        ("foo\t=\n'bar'  ", "foo", "bar"),
        ("標籤='數值'", "標籤", "數值"),
    ] {
        let (found_name, found_value) = read_attribute(content).unwrap();
        assert_eq!(found_name, name);
        assert_eq!(found_value, value);
    }
}

#[test]
fn empty_tag_with_attributes() {
    let Tag(name, kind, attributes) = Tag::parse("foo a='1' b=\"2\"/").ok().unwrap();
    assert_eq!(name, "foo");
    assert_eq!(kind, Type::Empty);
    assert_eq!(attributes.len(), 2);
    assert_eq!(attributes.get("a"), Some("1"));
    assert_eq!(attributes.get("b"), Some("2"));
    assert_eq!(attributes.get("c"), None);
}

#[test]
fn end_tag_with_excessive_data() {
    match Tag::parse("/foo bar") {
        Err(error) => {
            assert_eq!(error.description(), "found an end tag with excessive data");
            assert_eq!((error.line, error.column), (1, 6));
        }
        Ok(_) => unreachable!(),
    }
}

#[test]
fn tag_errors() {
    match Tag::parse("/ foo") {
        Err(error) => assert_eq!(error.description(), "expected a name"),
        Ok(_) => unreachable!(),
    }
    match Tag::parse("foo bar='baz' /x") {
        Err(error) => {
            assert_eq!(error.description(), "found an unexpected ending of a tag");
            assert_eq!(error.to_string(), "found an unexpected ending of a tag (line 1, column 17)");
        }
        Ok(_) => unreachable!(),
    }
}

#[test]
fn later_attribute_wins() {
    let Tag(_, kind, attributes) = Tag::parse("foo a='1' a='2'").ok().unwrap();
    assert_eq!(kind, Type::Start);
    assert_eq!(attributes.len(), 1);
    assert_eq!(attributes.get("a"), Some("2"));
}

#[test]
fn attribute_that_fails_is_not_consumed() {
    match Tag::parse("foo bar") {
        Err(error) => {
            assert_eq!(error.description(), "found an unexpected ending of a tag");
            assert_eq!((error.line, error.column), (1, 8));
        }
        Ok(_) => unreachable!(),
    }
    match Tag::parse("foo a='1' b") {
        Err(error) => assert_eq!(error.description(), "found an unexpected ending of a tag"),
        Ok(_) => unreachable!(),
    }
}

#[test]
fn names_are_taken_as_written() {
    let Tag(name, kind, _) = Tag::parse("\u{1680}").ok().unwrap();
    assert_eq!(name, "\u{1680}");
    assert_eq!(kind, Type::Start);
    let Tag(name, kind, _) = Tag::parse("/\u{1680}").ok().unwrap();
    assert_eq!(name, "\u{1680}");
    assert_eq!(kind, Type::End);
    let (name, value) = read_attribute("a\u{1680}='v'").unwrap();
    assert_eq!(name, "a\u{1680}");
    assert_eq!(value, "v");
}

#[test]
fn tail_must_be_exactly_a_slash() {
    assert!(Tag::parse("foo /\u{3000}").is_err());
    assert!(Tag::parse("foo/ ").is_err());
    let Tag(_, kind, _) = Tag::parse("foo /").ok().unwrap();
    assert_eq!(kind, Type::Empty);
}
