//! The nodes of a document: elements with attributes and children, text,
//! comments and blobs, and how they are written out.
use vstd::prelude::*;
use crate::chars::{chars_of, push_char, push_decimal, push_str, decimal, string_of};

verus! {

/// Lexicographic order by code point, the order of `str`'s `Ord`.
pub open spec fn lex_less(a: Seq<char>, b: Seq<char>) -> bool
    decreases a.len(),
{
    if a.len() == 0 {
        b.len() > 0
    } else if b.len() == 0 {
        false
    } else if a[0] < b[0] {
        true
    } else if a[0] == b[0] {
        lex_less(a.drop_first(), b.drop_first())
    } else {
        false
    }
}

pub proof fn lemma_lex_irreflexive(a: Seq<char>)
    ensures
        !lex_less(a, a),
    decreases a.len(),
{
    if a.len() > 0 {
        lemma_lex_irreflexive(a.drop_first());
    }
}

pub proof fn lemma_lex_transitive(a: Seq<char>, b: Seq<char>, c: Seq<char>)
    requires
        lex_less(a, b),
        lex_less(b, c),
    ensures
        lex_less(a, c),
    decreases a.len(),
{
    if a.len() > 0 && b.len() > 0 && c.len() > 0 && a[0] == b[0] && b[0] == c[0] {
        lemma_lex_transitive(a.drop_first(), b.drop_first(), c.drop_first());
    }
}

pub proof fn lemma_lex_total(a: Seq<char>, b: Seq<char>)
    requires
        a != b,
    ensures
        lex_less(a, b) || lex_less(b, a),
    decreases a.len(),
{
    if a.len() > 0 && b.len() > 0 && a[0] == b[0] {
        if a.drop_first() == b.drop_first() {
            assert(a =~= seq![a[0]] + a.drop_first());
            assert(b =~= seq![b[0]] + b.drop_first());
        }
        lemma_lex_total(a.drop_first(), b.drop_first());
    } else if a.len() == 0 && b.len() == 0 {
        assert(a =~= b);
    }
}

/// Compares two texts: negative if `a` comes first, zero if they are
/// equal, positive if `b` comes first.
pub fn compare(a: &Vec<char>, b: &Vec<char>) -> (r: i8)
    ensures
        (r < 0) == lex_less(a@, b@),
        (r == 0) == (a@ == b@),
        (r > 0) == lex_less(b@, a@),
{
    let mut i: usize = 0;
    assert(a@.skip(0) =~= a@);
    assert(b@.skip(0) =~= b@);
    assert(a@.subrange(0, 0) =~= b@.subrange(0, 0));
    while i < a.len() && i < b.len() && a[i] == b[i]
        invariant
            i <= a.len(),
            i <= b.len(),
            a@.subrange(0, i as int) == b@.subrange(0, i as int),
            lex_less(a@, b@) == lex_less(a@.skip(i as int), b@.skip(i as int)),
            lex_less(b@, a@) == lex_less(b@.skip(i as int), a@.skip(i as int)),
        decreases a.len() - i,
    {
        proof {
            assert(a@.skip(i as int).drop_first() =~= a@.skip(i + 1));
            assert(b@.skip(i as int).drop_first() =~= b@.skip(i + 1));
            assert(a@.subrange(0, i + 1) =~= a@.subrange(0, i as int).push(a@[i as int]));
            assert(b@.subrange(0, i + 1) =~= b@.subrange(0, i as int).push(b@[i as int]));
        }
        i += 1;
    }
    proof {
        lemma_lex_irreflexive(a@);
        if i == a.len() && i == b.len() {
            assert(a@ =~= a@.subrange(0, i as int));
            assert(b@ =~= b@.subrange(0, i as int));
        } else if i < a.len() && i < b.len() {
            assert(a@.skip(i as int)[0] == a@[i as int]);
            assert(b@.skip(i as int)[0] == b@[i as int]);
            if a@ == b@ {
                assert(a@[i as int] == b@[i as int]);
            }
        } else if i < a.len() {
            assert(a@.len() != b@.len());
        } else {
            assert(a@.len() != b@.len());
        }
    }
    if i == a.len() && i == b.len() {
        0
    } else if i == a.len() {
        -1
    } else if i == b.len() {
        1
    } else if a[i] < b[i] {
        -1
    } else {
        1
    }
}

/// The value of the first entry named `k`.
pub open spec fn lookup(es: Seq<(Seq<char>, Seq<char>)>, k: Seq<char>) -> Option<Seq<char>>
    decreases es.len(),
{
    if es.len() == 0 {
        None
    } else if es[0].0 == k {
        Some(es[0].1)
    } else {
        lookup(es.drop_first(), k)
    }
}

proof fn lemma_lookup_at(es: Seq<(Seq<char>, Seq<char>)>, k: Seq<char>, i: int)
    requires
        0 <= i < es.len(),
        es[i].0 == k,
        forall|j: int| 0 <= j < i ==> (#[trigger] es[j]).0 != k,
    ensures
        lookup(es, k) == Some(es[i].1),
    decreases i,
{
    if i > 0 {
        let t = es.drop_first();
        assert forall|j: int| 0 <= j < i - 1 implies (#[trigger] t[j]).0 != k by {
            assert(t[j] == es[j + 1]);
        }
        assert(es[0].0 != k);
        lemma_lookup_at(t, k, i - 1);
    }
}

proof fn lemma_lookup_none(es: Seq<(Seq<char>, Seq<char>)>, k: Seq<char>)
    requires
        forall|j: int| 0 <= j < es.len() ==> (#[trigger] es[j]).0 != k,
    ensures
        lookup(es, k) is None,
    decreases es.len(),
{
    if es.len() > 0 {
        let t = es.drop_first();
        assert forall|j: int| 0 <= j < t.len() implies (#[trigger] t[j]).0 != k by {
            assert(t[j] == es[j + 1]);
        }
        assert(es[0].0 != k);
        lemma_lookup_none(t, k);
    }
}

/// Entries in strictly increasing order of their names.
pub open spec fn sorted(es: Seq<(Seq<char>, Seq<char>)>) -> bool {
    forall|i: int, j: int| 0 <= i < j < es.len() ==> lex_less(#[trigger] es[i].0, #[trigger] es[j].0)
}

/// Where `k` is found among sorted entries, or would be inserted.
proof fn lemma_sorted_lookup(es: Seq<(Seq<char>, Seq<char>)>, k: Seq<char>, i: int)
    requires
        sorted(es),
        0 <= i < es.len(),
        es[i].0 == k,
    ensures
        lookup(es, k) == Some(es[i].1),
{
    assert forall|j: int| 0 <= j < i implies (#[trigger] es[j]).0 != k by {
        assert(lex_less(es[j].0, es[i].0));
        lemma_lex_irreflexive(k);
    }
    lemma_lookup_at(es, k, i);
}

/// The value of an attribute.
pub struct Value(pub String);

impl Value {
    /// A value that is this text.
    pub fn new(content: &str) -> (r: Value)
        ensures
            r.0@ == content@,
    {
        Value(content.to_owned())
    }

    /// The decimal form of an integer.
    pub fn from_integer(n: i64) -> (r: Value)
        ensures
            r.0@ == integer_text(n as int),
    {
        let mut s = String::new();
        if n < 0 {
            push_char(&mut s, '-');
            let m: u64 = ((-(n + 1)) as u64) + 1;
            push_decimal(&mut s, m);
        } else {
            push_decimal(&mut s, n as u64);
        }
        Value(s)
    }

    /// The values joined with single spaces.
    pub fn from_list(values: Vec<Value>) -> (r: Value)
        ensures
            r.0@ == joined(values@.map_values(|v: Value| v.0@), ' '),
    {
        let ghost parts = values@.map_values(|v: Value| v.0@);
        let mut s = String::new();
        let mut i: usize = 0;
        while i < values.len()
            invariant
                i <= values.len(),
                parts == values@.map_values(|v: Value| v.0@),
                s@ == joined(parts.take(i as int), ' '),
            decreases values.len() - i,
        {
            if i > 0 {
                push_char(&mut s, ' ');
            }
            push_str(&mut s, values[i].0.as_str());
            proof {
                assert(parts.take(i + 1).drop_last() =~= parts.take(i as int));
                assert(parts[i as int] == values@[i as int].0@);
                assert(parts.take(i + 1).last() == parts[i as int]);
            }
            i += 1;
        }
        assert(parts.take(values.len() as int) =~= parts);
        Value(s)
    }

    /// The text of the value.
    pub fn as_str(&self) -> (r: &str)
        ensures
            r@ == self.0@,
    {
        self.0.as_str()
    }

    /// The text of the value, taken out.
    pub fn into_string(self) -> (r: String)
        ensures
            r@ == self.0@,
    {
        self.0
    }
}

/// The decimal form of an integer, with a `-` when it is negative.
pub open spec fn integer_text(n: int) -> Seq<char> {
    if n < 0 {
        seq!['-'] + decimal((-n) as nat)
    } else {
        decimal(n as nat)
    }
}

/// Texts joined with a separator between each two.
pub open spec fn joined(parts: Seq<Seq<char>>, sep: char) -> Seq<char>
    decreases parts.len(),
{
    if parts.len() == 0 {
        Seq::empty()
    } else if parts.len() == 1 {
        parts[0]
    } else {
        joined(parts.drop_last(), sep).push(sep) + parts.last()
    }
}

struct Entry {
    name: Vec<char>,
    value: String,
}

/// The attributes of an element: values by name, each name once.
pub struct Attributes {
    entries: Vec<Entry>,
}

impl Attributes {
    /// The entries, in increasing order of their names.
    pub closed spec fn entries(&self) -> Seq<(Seq<char>, Seq<char>)> {
        self.entries@.map_values(|e: Entry| (e.name@, e.value@))
    }

    pub open spec fn wf(&self) -> bool {
        sorted(self.entries())
    }

    /// The value of the attribute named `k`, if any.
    pub open spec fn value_of(&self, k: Seq<char>) -> Option<Seq<char>> {
        lookup(self.entries(), k)
    }

    /// No attributes.
    pub fn new() -> (r: Attributes)
        ensures
            r.wf(),
            r.entries().len() == 0,
    {
        Attributes { entries: Vec::new() }
    }

    /// The number of attributes.
    pub fn len(&self) -> (r: usize)
        ensures
            r == self.entries().len(),
    {
        self.entries.len()
    }

    /// The `i`-th attribute in order of names: its name and its value.
    pub fn entry(&self, i: usize) -> (r: (String, &str))
        requires
            i < self.entries().len(),
        ensures
            r.0@ == self.entries()[i as int].0,
            r.1@ == self.entries()[i as int].1,
    {
        (string_of(&self.entries[i].name), self.entries[i].value.as_str())
    }

    /// The value of the attribute named `name`, if any.
    pub fn get(&self, name: &str) -> (r: Option<&str>)
        requires
            self.wf(),
        ensures
            match r {
                Some(v) => self.value_of(name@) == Some(v@),
                None => self.value_of(name@) is None,
            },
    {
        let key = chars_of(name);
        let mut i: usize = 0;
        while i < self.entries.len()
            invariant
                self.wf(),
                i <= self.entries.len(),
                key@ == name@,
                forall|j: int| 0 <= j < i ==> (#[trigger] self.entries()[j]).0 != key@,
            decreases self.entries.len() - i,
        {
            if compare(&self.entries[i].name, &key) == 0 {
                proof {
                    lemma_sorted_lookup(self.entries(), key@, i as int);
                }
                return Some(self.entries[i].value.as_str());
            }
            i += 1;
        }
        proof {
            lemma_lookup_none(self.entries(), key@);
        }
        None
    }

    /// Sets the attribute named `name` to `value`, in place of any value
    /// it had.
    pub fn set(&mut self, name: &str, value: &str)
        requires
            old(self).wf(),
        ensures
            final(self).wf(),
            forall|k: Seq<char>| #[trigger]
                final(self).value_of(k) == if k == name@ {
                    Some(value@)
                } else {
                    old(self).value_of(k)
                },
    {
        let key = chars_of(name);
        let ghost es = self.entries();
        let mut i: usize = 0;
        while i < self.entries.len() && compare(&self.entries[i].name, &key) < 0
            invariant
                i <= self.entries.len(),
                self.entries() == es,
                key@ == name@,
                forall|j: int| 0 <= j < i ==> lex_less((#[trigger] es[j]).0, key@),
            decreases self.entries.len() - i,
        {
            i += 1;
        }
        let entry = Entry { name: key, value: value.to_owned() };
        let replace = i < self.entries.len() && compare(&self.entries[i].name, &entry.name) == 0;
        let ghost ne = (name@, value@);
        if replace {
            self.entries.set(i, entry);
            proof {
                let new = self.entries();
                assert(new =~= es.update(i as int, ne));
                assert forall|a: int, b: int| 0 <= a < b < new.len() implies lex_less(
                    #[trigger] new[a].0,
                    #[trigger] new[b].0,
                ) by {
                    assert(es[a].0 == new[a].0 && es[b].0 == new[b].0);
                }
                assert forall|k: Seq<char>| #[trigger]
                    self.value_of(k) == if k == name@ {
                        Some(value@)
                    } else {
                        old(self).value_of(k)
                    } by {
                    if k == name@ {
                        lemma_sorted_lookup(new, k, i as int);
                    } else if exists|j: int| 0 <= j < es.len() && (#[trigger] es[j]).0 == k {
                        let j = choose|j: int| 0 <= j < es.len() && (#[trigger] es[j]).0 == k;
                        lemma_sorted_lookup(es, k, j);
                        lemma_sorted_lookup(new, k, j);
                    } else {
                        lemma_lookup_none(es, k);
                        assert forall|j: int| 0 <= j < new.len() implies (#[trigger] new[j]).0
                            != k by {
                            if j != i {
                                assert(new[j] == es[j]);
                            }
                        }
                        lemma_lookup_none(new, k);
                    }
                }
            }
        } else {
            self.entries.insert(i, entry);
            proof {
                let new = self.entries();
                assert(new =~= es.insert(i as int, ne));
                if i < es.len() {
                    lemma_lex_total(es[i as int].0, name@);
                }
                assert forall|a: int, b: int| 0 <= a < b < new.len() implies lex_less(
                    #[trigger] new[a].0,
                    #[trigger] new[b].0,
                ) by {
                    if b < i {
                        assert(new[a] == es[a] && new[b] == es[b]);
                    } else if b == i {
                        assert(new[a] == es[a]);
                    } else if a == i {
                        assert(new[b] == es[b - 1]);
                        if b - 1 > i {
                            lemma_lex_transitive(name@, es[i as int].0, es[b - 1].0);
                        }
                    } else if a < i {
                        assert(new[a] == es[a] && new[b] == es[b - 1]);
                    } else {
                        assert(new[a] == es[a - 1] && new[b] == es[b - 1]);
                    }
                }
                assert forall|k: Seq<char>| #[trigger]
                    self.value_of(k) == if k == name@ {
                        Some(value@)
                    } else {
                        old(self).value_of(k)
                    } by {
                    if k == name@ {
                        lemma_sorted_lookup(new, k, i as int);
                    } else if exists|j: int| 0 <= j < es.len() && (#[trigger] es[j]).0 == k {
                        let j = choose|j: int| 0 <= j < es.len() && (#[trigger] es[j]).0 == k;
                        lemma_sorted_lookup(es, k, j);
                        if j < i {
                            lemma_sorted_lookup(new, k, j);
                        } else {
                            assert(new[j + 1] == es[j]);
                            lemma_sorted_lookup(new, k, j + 1);
                        }
                    } else {
                        lemma_lookup_none(es, k);
                        assert forall|j: int| 0 <= j < new.len() implies (#[trigger] new[j]).0
                            != k by {
                            if j < i {
                                assert(new[j] == es[j]);
                            } else if j > i {
                                assert(new[j] == es[j - 1]);
                            }
                        }
                        lemma_lookup_none(new, k);
                    }
                }
            }
        }
    }
}

/// What a character becomes in escaped text: `&`, `<` and `>` as
/// references, and in an attribute value `"` and `'` as well.
pub open spec fn escaped_char(c: char, attribute: bool) -> Seq<char> {
    if c == '&' {
        "&amp;"@
    } else if c == '<' {
        "&lt;"@
    } else if c == '>' {
        "&gt;"@
    } else if attribute && c == '"' {
        "&quot;"@
    } else if attribute && c == '\'' {
        "&apos;"@
    } else {
        seq![c]
    }
}

/// A text with each character escaped.
pub open spec fn escaped(s: Seq<char>, attribute: bool) -> Seq<char>
    decreases s.len(),
{
    if s.len() == 0 {
        Seq::empty()
    } else {
        escaped(s.drop_last(), attribute) + escaped_char(s.last(), attribute)
    }
}

/// Escapes `&`, `<` and `>`, and in an attribute value `"` and `'`.
pub fn escape(value: &str, attribute: bool) -> (r: String)
    ensures
        r@ == escaped(value@, attribute),
{
    let cs = chars_of(value);
    let mut r = String::new();
    let mut i: usize = 0;
    while i < cs.len()
        invariant
            i <= cs.len(),
            cs@ == value@,
            r@ == escaped(cs@.take(i as int), attribute),
        decreases cs.len() - i,
    {
        let c = cs[i];
        if c == '&' {
            push_str(&mut r, "&amp;");
        } else if c == '<' {
            push_str(&mut r, "&lt;");
        } else if c == '>' {
            push_str(&mut r, "&gt;");
        } else if attribute && c == '"' {
            push_str(&mut r, "&quot;");
        } else if attribute && c == '\'' {
            push_str(&mut r, "&apos;");
        } else {
            push_char(&mut r, c);
        }
        proof {
            assert(cs@.take(i + 1).drop_last() =~= cs@.take(i as int));
            assert(cs@.take(i + 1).last() == c);
            assert(r@ =~= escaped(cs@.take(i + 1), attribute));
        }
        i += 1;
    }
    assert(cs@.take(cs.len() as int) =~= cs@);
    r
}

/// A text node.
pub struct Text {
    content: String,
}

/// A comment node.
pub struct Comment {
    content: String,
}

/// A node written out as it is, unescaped.
pub struct Blob {
    content: String,
}

impl Text {
    pub closed spec fn content(&self) -> Seq<char> {
        self.content@
    }

    /// A text node.
    pub fn new(content: &str) -> (r: Text)
        ensures
            r.content() == content@,
    {
        Text { content: content.to_owned() }
    }

    /// The text, escaped.
    pub fn to_string(&self) -> (r: String)
        ensures
            r@ == escaped(self.content(), false),
    {
        escape(self.content.as_str(), false)
    }
}

impl Comment {
    pub closed spec fn content(&self) -> Seq<char> {
        self.content@
    }

    /// A comment node.
    pub fn new(content: &str) -> (r: Comment)
        ensures
            r.content() == content@,
    {
        Comment { content: content.to_owned() }
    }

    /// The comment between `<!-- ` and ` -->`.
    pub fn to_string(&self) -> (r: String)
        ensures
            r@ == "<!-- "@ + self.content() + " -->"@,
    {
        let mut r = String::new();
        push_str(&mut r, "<!-- ");
        push_str(&mut r, self.content.as_str());
        push_str(&mut r, " -->");
        assert(r@ =~= "<!-- "@ + self.content() + " -->"@);
        r
    }
}

impl Blob {
    pub closed spec fn content(&self) -> Seq<char> {
        self.content@
    }

    /// A blob node.
    pub fn new(content: &str) -> (r: Blob)
        ensures
            r.content() == content@,
    {
        Blob { content: content.to_owned() }
    }

    /// The content as it is.
    pub fn to_string(&self) -> (r: String)
        ensures
            r@ == self.content(),
    {
        self.content.clone()
    }
}

/// A node of a document.
pub enum Node {
    /// An element.
    Element(Element),
    /// Text, escaped when written out.
    Text(Text),
    /// A comment.
    Comment(Comment),
    /// Content written out as it is.
    Blob(Blob),
}

/// An element: a name, attributes and child nodes.
pub struct Element {
    name: String,
    attributes: Attributes,
    children: Vec<Node>,
}

/// Whether elements of this name keep each child on a line of its own,
/// text too.
pub open spec fn is_bareable(name: Seq<char>) -> bool {
    name == "svg"@ || name == "script"@ || name == "style"@ || name == "text"@
}

/// Attributes written out: ` name="value"` each, in order.
pub open spec fn attributes_text(es: Seq<(Seq<char>, Seq<char>)>) -> Seq<char>
    decreases es.len(),
{
    if es.len() == 0 {
        Seq::empty()
    } else {
        attributes_text(es.drop_last()) + " "@ + es.last().0 + "=\""@ + escaped(es.last().1, true)
            + "\""@
    }
}

impl Node {
    /// Whether the node is written inline, without a line of its own.
    pub open spec fn is_bare(&self) -> bool {
        self is Text
    }
}

/// A node written out.
pub closed spec fn node_text(n: Node) -> Seq<char>
    decreases n, 0nat,
{
    match n {
        Node::Element(e) => element_text(e),
        Node::Text(t) => escaped(t.content@, false),
        Node::Comment(c) => "<!-- "@ + c.content@ + " -->"@,
        Node::Blob(b) => b.content@,
    }
}

/// An element written out: its start tag with its attributes, each child
/// on a line of its own unless it is text in an element that is not
/// bareable, and its end tag; an empty tag when it has no children.
pub closed spec fn element_text(e: Element) -> Seq<char>
    decreases e, 1nat,
{
    let n = e.children@.len();
    let open = "<"@ + e.name@ + attributes_text(e.attributes.entries());
    if n == 0 {
        open + "/>"@
    } else {
        let alternate = is_bareable(e.name@);
        let last_bare = e.children@[n - 1].is_bare() && !alternate;
        open + ">"@ + children_text(e, n as nat) + (if last_bare {
            Seq::empty()
        } else {
            "\n"@
        }) + "</"@ + e.name@ + ">"@
    }
}

/// The first `k` children of an element written out, each after a line
/// feed unless it is inline.
pub closed spec fn children_text(e: Element, k: nat) -> Seq<char>
    decreases e, 0nat, k,
{
    if k == 0 || k > e.children@.len() {
        Seq::empty()
    } else {
        let child = e.children@[k - 1];
        let bare = child.is_bare() && !is_bareable(e.name@);
        children_text(e, (k - 1) as nat) + (if bare {
            Seq::empty()
        } else {
            "\n"@
        }) + node_text(child)
    }
}

impl Element {
    pub closed spec fn name(&self) -> Seq<char> {
        self.name@
    }

    pub closed spec fn attributes(&self) -> Attributes {
        self.attributes
    }

    pub closed spec fn children(&self) -> Seq<Node> {
        self.children@
    }

    pub closed spec fn wf(&self) -> bool {
        self.attributes.wf()
    }

    /// An element with no attributes and no children.
    pub fn new(name: &str) -> (r: Element)
        ensures
            r.wf(),
            r.name() == name@,
            r.attributes().entries().len() == 0,
            r.children().len() == 0,
    {
        Element { name: name.to_owned(), attributes: Attributes::new(), children: Vec::new() }
    }

    /// The name.
    pub fn get_name(&self) -> (r: &str)
        ensures
            r@ == self.name(),
    {
        self.name.as_str()
    }

    /// The attributes.
    pub fn get_attributes(&self) -> (r: &Attributes)
        ensures
            *r == self.attributes(),
    {
        &self.attributes
    }

    /// The attributes, to change in place.
    pub fn get_attributes_mut(&mut self) -> (r: &mut Attributes)
        ensures
            *r == old(self).attributes(),
            final(self).attributes() == *final(r),
            final(self).name() == old(self).name(),
            final(self).children() == old(self).children(),
    {
        &mut self.attributes
    }

    /// The children, to change in place.
    pub fn get_children_mut(&mut self) -> (r: &mut Vec<Node>)
        ensures
            r@ == old(self).children(),
            final(self).children() == final(r)@,
            final(self).name() == old(self).name(),
            final(self).attributes() == old(self).attributes(),
    {
        &mut self.children
    }

    /// The children.
    pub fn get_children(&self) -> (r: &Vec<Node>)
        ensures
            r@ == self.children(),
    {
        &self.children
    }

    /// Sets an attribute, in place of any value it had.
    pub fn assign(&mut self, name: &str, value: &str)
        requires
            old(self).wf(),
        ensures
            final(self).wf(),
            final(self).name() == old(self).name(),
            final(self).children() == old(self).children(),
            forall|k: Seq<char>| #[trigger]
                final(self).attributes().value_of(k) == if k == name@ {
                    Some(value@)
                } else {
                    old(self).attributes().value_of(k)
                },
    {
        self.attributes.set(name, value);
    }

    /// Appends a child.
    pub fn append(&mut self, node: Node)
        ensures
            final(self).name() == old(self).name(),
            final(self).attributes() == old(self).attributes(),
            final(self).children() == old(self).children().push(node),
            final(self).wf() == old(self).wf(),
    {
        self.children.push(node);
    }

    /// The element with an attribute set.
    pub fn set(self, name: &str, value: &str) -> (r: Element)
        requires
            self.wf(),
        ensures
            r.wf(),
            r.name() == self.name(),
            r.children() == self.children(),
            forall|k: Seq<char>| #[trigger]
                r.attributes().value_of(k) == if k == name@ {
                    Some(value@)
                } else {
                    self.attributes().value_of(k)
                },
    {
        let mut e = self;
        e.assign(name, value);
        e
    }

    /// The element with a child appended.
    pub fn add(self, node: Node) -> (r: Element)
        ensures
            r.name() == self.name(),
            r.attributes() == self.attributes(),
            r.children() == self.children().push(node),
            r.wf() == self.wf(),
    {
        let mut e = self;
        e.append(node);
        e
    }

    /// The element written out.
    pub fn to_string(&self) -> (r: String)
        ensures
            r@ == element_text(*self),
        decreases *self,
    {
        let mut r = String::new();
        push_char(&mut r, '<');
        push_str(&mut r, self.name.as_str());
        let ghost es = self.attributes.entries();
        let mut i: usize = 0;
        let n = self.attributes.len();
        assert(es.take(0) =~= Seq::<(Seq<char>, Seq<char>)>::empty());
        proof {
            reveal_strlit("<");
            assert(r@ =~= "<"@ + self.name@ + attributes_text(es.take(0)));
        }
        while i < n
            invariant
                i <= n == es.len(),
                es == self.attributes.entries(),
                r@ == "<"@ + self.name@ + attributes_text(es.take(i as int)),
            decreases n - i,
        {
            let (key, value) = self.attributes.entry(i);
            push_str(&mut r, " ");
            push_str(&mut r, key.as_str());
            push_str(&mut r, "=\"");
            let text = escape(value, true);
            push_str(&mut r, text.as_str());
            push_str(&mut r, "\"");
            proof {
                assert(es.take(i + 1).drop_last() =~= es.take(i as int));
                assert(es.take(i + 1).last() == es[i as int]);
                assert(r@ =~= "<"@ + self.name@ + attributes_text(es.take(i + 1)));
            }
            i += 1;
        }
        assert(es.take(n as int) =~= es);
        let count = self.children.len();
        if count == 0 {
            push_str(&mut r, "/>");
            assert(r@ =~= element_text(*self));
            return r;
        }
        push_str(&mut r, ">");
        let ghost open = "<"@ + self.name@ + attributes_text(es) + ">"@;
        let alternate = is_bareable_name(self.name.as_str());
        let mut bare = false;
        let mut j: usize = 0;
        while j < count
            invariant
                j <= count == self.children@.len(),
                alternate == is_bareable(self.name@),
                r@ == open + children_text(*self, j as nat),
                j > 0 ==> bare == (self.children@[j - 1].is_bare() && !alternate),
            decreases count - j,
        {
            let child = &self.children[j];
            bare = matches!(child, Node::Text(_)) && !alternate;
            if !bare {
                push_str(&mut r, "\n");
            }
            let text = child.to_string();
            push_str(&mut r, text.as_str());
            proof {
                assert(r@ =~= open + children_text(*self, (j + 1) as nat));
            }
            j += 1;
        }
        if !bare {
            push_str(&mut r, "\n");
        }
        push_str(&mut r, "</");
        push_str(&mut r, self.name.as_str());
        push_str(&mut r, ">");
        assert(r@ =~= element_text(*self));
        r
    }
}

/// Whether elements of this name keep each child on a line of its own.
fn is_bareable_name(name: &str) -> (r: bool)
    ensures
        r == is_bareable(name@),
{
    let v = chars_of(name);
    compare(&v, &chars_of("svg")) == 0 || compare(&v, &chars_of("script")) == 0 || compare(
        &v,
        &chars_of("style"),
    ) == 0 || compare(&v, &chars_of("text")) == 0
}

impl Node {
    /// The node written out.
    pub fn to_string(&self) -> (r: String)
        ensures
            r@ == node_text(*self),
        decreases *self,
    {
        match self {
            Node::Element(e) => e.to_string(),
            Node::Text(t) => t.to_string(),
            Node::Comment(c) => c.to_string(),
            Node::Blob(b) => b.to_string(),
        }
    }
}

/// How a node is written out.
pub proof fn lemma_node_text(n: Node)
    ensures
        node_text(n) == match n {
            Node::Element(e) => element_text(e),
            Node::Text(t) => escaped(t.content(), false),
            Node::Comment(c) => "<!-- "@ + c.content() + " -->"@,
            Node::Blob(b) => b.content(),
        },
{
}

/// How an element is written out: its start tag and attributes, then an
/// empty-tag close, or its children and its end tag.
pub proof fn lemma_element_text(e: Element)
    ensures
        element_text(e) == ({
            let n = e.children().len();
            let open = "<"@ + e.name() + attributes_text(e.attributes().entries());
            if n == 0 {
                open + "/>"@
            } else {
                let last_bare = e.children()[n - 1].is_bare() && !is_bareable(e.name());
                open + ">"@ + children_text(e, n as nat) + (if last_bare {
                    Seq::empty()
                } else {
                    "\n"@
                }) + "</"@ + e.name() + ">"@
            }
        }),
{
}

/// How the first `k` children of an element are written out: each after a
/// line feed, unless it is text in an element that is not bareable.
pub proof fn lemma_children_text(e: Element, k: nat)
    ensures
        children_text(e, k) == if k == 0 || k > e.children().len() {
            Seq::empty()
        } else {
            let child = e.children()[k - 1];
            let bare = child.is_bare() && !is_bareable(e.name());
            children_text(e, (k - 1) as nat) + (if bare {
                Seq::empty()
            } else {
                "\n"@
            }) + node_text(child)
        },
{
}

} // verus!
