use svg::parser::{Event, Parser};
use svg::tag::Type;

#[test]
fn next_tag() {
    for (content, value) in [("<foo>", "foo"), ("<foo/>", "foo"), ("  <foo/>", "foo")] {
        let mut parser = Parser::new(content);
        match parser.next().unwrap() {
            Event::Tag(name, _, _) => assert_eq!(name, value),
            _ => unreachable!(),
        }
    }
}

#[test]
fn next_text() {
    for (content, value) in [("foo <bar>", "foo"), ("  foo<bar>", "foo"), ("foo> <bar>", "foo>")] {
        let mut parser = Parser::new(content);
        match parser.next().unwrap() {
            Event::Text(text) => assert_eq!(text, value),
            _ => unreachable!(),
        }
    }
}

#[test]
fn document_events_in_order() {
    let mut parser = svg::read("<foo> bar <baz/></foo>");
    match parser.next().unwrap() {
        Event::Tag(name, Type::Start, attributes) => {
            assert_eq!(name, "foo");
            assert_eq!(attributes.len(), 0);
        }
        _ => unreachable!(),
    }
    match parser.next().unwrap() {
        Event::Text(text) => assert_eq!(text, "bar"),
        _ => unreachable!(),
    }
    match parser.next().unwrap() {
        Event::Tag(name, Type::Empty, _) => assert_eq!(name, "baz"),
        _ => unreachable!(),
    }
    match parser.next().unwrap() {
        Event::Tag(name, Type::End, _) => assert_eq!(name, "foo"),
        _ => unreachable!(),
    }
    assert!(parser.next().is_none());
    assert!(parser.next().is_none());
}

#[test]
fn comments_declarations_instructions() {
    let mut parser = Parser::new("<?xml version=\"1.0\"?>\n<!-- made -->\n<!DOCTYPE svg>\n<svg></svg>");
    match parser.next().unwrap() {
        Event::Instruction(text) => assert_eq!(text, "<?xml version=\"1.0\"?>"),
        _ => unreachable!(),
    }
    match parser.next().unwrap() {
        Event::Comment(text) => assert_eq!(text, "<!-- made -->"),
        _ => unreachable!(),
    }
    match parser.next().unwrap() {
        Event::Declaration(text) => assert_eq!(text, "<!DOCTYPE svg>"),
        _ => unreachable!(),
    }
    match parser.next().unwrap() {
        Event::Tag(name, Type::Start, _) => assert_eq!(name, "svg"),
        _ => unreachable!(),
    }
    match parser.next().unwrap() {
        Event::Tag(name, Type::End, _) => assert_eq!(name, "svg"),
        _ => unreachable!(),
    }
    assert!(parser.next().is_none());
}

#[test]
fn errors_do_not_stop_the_tokenizer() {
    let mut parser = Parser::new("<!-- a -- b --> <x y='1> <>");
    let mut events = 0;
    let mut errors = Vec::new();
    while let Some(event) = parser.next() {
        events += 1;
        if let Event::Error(error) = event {
            errors.push(error.description().to_string());
        }
        assert!(events < 100);
    }
    assert_eq!(errors[0], "found a malformed comment");
    assert!(errors.contains(&"found a malformed tag".to_string()));
}

#[test]
fn tag_error_has_position_inside_tag() {
    let mut parser = Parser::new("<foo ?>");
    match parser.next().unwrap() {
        Event::Error(error) => {
            assert_eq!(error.description(), "found an unexpected ending of a tag");
            assert_eq!(error.to_string(), "found an unexpected ending of a tag (line 1, column 6)");
        }
        _ => unreachable!(),
    }
    assert!(parser.next().is_none());
}
