use svg::node::{escape, Attributes, Comment, Element, Node, Text, Value};

#[test]
fn set() {
    let mut attributes = Attributes::new();
    attributes.set("foo", Value::from_integer(42).as_str());
}

#[test]
fn comment_display() {
    let comment = Comment::new("valid");
    assert_eq!(comment.to_string(), "<!-- valid -->");

    let comment = Comment::new("invalid -->");
    assert_eq!(comment.to_string(), "<!-- invalid --> -->");
}

#[test]
fn element_display() {
    let mut element = Element::new("foo");
    element.assign("x", Value::from_integer(-10).as_str());
    element.assign("y", "10px");
    element.assign(
        "s",
        Value::from_list(vec![Value::new(&format!("{}", 12.5)), Value::new(&format!("{}", 13.0))])
            .as_str(),
    );
    element.assign("c", "green");
    element.append(Node::Element(Element::new("bar")));

    assert_eq!(
        element.to_string().lines().collect::<Vec<_>>(),
        &[r#"<foo c="green" s="12.5 13" x="-10" y="10px">"#, "<bar/>", "</foo>",],
    );
}

#[test]
fn element_display_angles() {
    let element = Element::new("rect")
        .set("fill", "#FF780088")
        .set("height", Value::from_integer(10).as_str())
        .set("width", &format!("{}", 0.3088995))
        .set("x", &format!("{}", 328.0725))
        .set("y", Value::from_integer(120).as_str())
        .add(Node::Element(
            Element::new("title").add(Node::Text(Text::new("widgets >=3.0.9, <3.1.dev0"))),
        ));

    assert_eq!(
        element.to_string().lines().collect::<Vec<_>>(),
        &[
            r###"<rect fill="#FF780088" height="10" width="0.3088995" x="328.0725" y="120">"###,
            "<title>widgets &gt;=3.0.9, &lt;3.1.dev0</title>",
            "</rect>",
        ],
    );
}

#[test]
fn element_display_quotes() {
    let mut element = Element::new("foo");
    element.assign("s", "'single'");
    element.assign("d", r#""double""#);
    element.assign("m", r#""mixed'"#);

    assert_eq!(
        element.to_string(),
        r#"<foo d="&quot;double&quot;" m="&quot;mixed&apos;" s="&apos;single&apos;"/>"#,
    );
}

#[test]
fn style_display() {
    let element = Element::new("style").add(Node::Text(Text::new("* { font-family: foo; }")));

    assert_eq!(
        element.to_string().lines().collect::<Vec<_>>(),
        &["<style>", "* { font-family: foo; }", "</style>"],
    );
}

#[test]
fn value_from_vector() {
    assert_eq!(
        Value::from_list(vec![Value::from_integer(42), Value::from_integer(69)]).into_string(),
        "42 69"
    );
}

#[test]
fn text_and_attribute_escaping() {
    assert_eq!(escape("a<b>&'\"", false), "a&lt;b&gt;&amp;'\"");
    assert_eq!(escape("a<b>&'\"", true), "a&lt;b&gt;&amp;&apos;&quot;");
    assert_eq!(Text::new("1 < 2").to_string(), "1 &lt; 2");
}

#[test]
fn attributes_replace_and_sort() {
    let mut attributes = Attributes::new();
    attributes.set("b", "1");
    attributes.set("a", "2");
    attributes.set("b", "3");
    assert_eq!(attributes.len(), 2);
    assert_eq!(attributes.entry(0).0, "a");
    assert_eq!(attributes.get("b"), Some("3"));
    assert_eq!(attributes.get("c"), None);
}

#[test]
fn nested_elements() {
    let element = Element::new("g")
        .add(Node::Element(Element::new("text").add(Node::Text(Text::new("foo")))))
        .add(Node::Comment(Comment::new("c")));
    assert_eq!(element.to_string(), "<g>\n<text>\nfoo\n</text>\n<!-- c -->\n</g>");
    assert_eq!(Value::from_integer(i64::MIN).as_str(), "-9223372036854775808");
}

#[test]
fn element_accessors() {
    let mut element = Element::new("path").set("d", "M0,0");
    assert_eq!(element.get_name(), "path");
    assert_eq!(element.get_attributes().get("d"), Some("M0,0"));
    element.get_attributes_mut().set("fill", "none");
    element.get_children_mut().push(Node::Text(Text::new("x")));
    assert_eq!(element.get_children().len(), 1);
    assert_eq!(element.to_string(), "<path d=\"M0,0\" fill=\"none\">x</path>");
}
