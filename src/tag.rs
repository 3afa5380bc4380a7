//! The parser of what stands between the angle brackets of a tag.
use vstd::prelude::*;
use crate::error::Error;
use crate::node::Attributes;
use crate::reader::{
    attribute_scan, lemma_attribute_value_scan, equality_scan, line_of, column_of, name_scan, span_end, CharClass,
    Reader, MAX_TEXT,
};

verus! {

/// The kind of a tag.
#[derive(Clone, Copy, Debug, PartialEq, Eq, Structural)]
pub enum Type {
    /// A start tag: `<name ...>`.
    Start,
    /// An end tag: `</name>`.
    End,
    /// An empty tag: `<name .../>`.
    Empty,
}

/// A tag: its name, its kind and its attributes.
pub struct Tag(pub String, pub Type, pub Attributes);

/// The line and column at a character index.
pub open spec fn position_at(s: Seq<char>, i: int) -> (nat, nat) {
    (line_of(s.take(i)), column_of(s.take(i)))
}

/// The name and value of the attribute that starts at `a`: the name as
/// written, the value between its quotes.
pub open spec fn attribute_pair(s: Seq<char>, a: int) -> (Seq<char>, Seq<char>) {
    let j = name_scan(s, a).1;
    let k = equality_scan(s, j).1;
    let e = attribute_scan(s, a).1;
    (s.subrange(a, j), s.subrange(k + 1, e - 1))
}

/// The attributes from `i` on, each after optional white space, up to the
/// first place that does not start an attribute; and that place.
pub open spec fn attributes_scan(s: Seq<char>, i: int) -> (Seq<(Seq<char>, Seq<char>)>, int)
    decreases s.len() - i,
{
    let a = span_end(s, i, CharClass::Space);
    let (ok, e) = attribute_scan(s, a);
    if ok && i < e <= s.len() {
        let (rest, f) = attributes_scan(s, e);
        (seq![attribute_pair(s, a)] + rest, f)
    } else {
        (Seq::empty(), a)
    }
}

/// The value of the last of the pairs named `k`.
pub open spec fn last_value(pairs: Seq<(Seq<char>, Seq<char>)>, k: Seq<char>) -> Option<Seq<char>>
    decreases pairs.len(),
{
    if pairs.len() == 0 {
        None
    } else if pairs.last().0 == k {
        Some(pairs.last().1)
    } else {
        last_value(pairs.drop_last(), k)
    }
}

/// What parsing the content of a tag gives: its name, kind and attributes
/// in the order written, or an error message and the index where it
/// arose.
pub open spec fn tag_spec(s: Seq<char>) -> Result<
    (Seq<char>, Type, Seq<(Seq<char>, Seq<char>)>),
    (Seq<char>, int),
> {
    if s.len() > 0 && s[0] == '/' {
        let scan = name_scan(s, 1);
        if !scan.0 {
            Err(("expected a name"@, scan.1))
        } else {
            let k = span_end(s, scan.1, CharClass::Space);
            if k < s.len() {
                Err(("found an end tag with excessive data"@, k))
            } else {
                Ok((s.subrange(1, scan.1), Type::End, Seq::empty()))
            }
        }
    } else {
        let scan = name_scan(s, 0);
        if !scan.0 {
            Err(("expected a name"@, scan.1))
        } else {
            let (attributes, e) = attributes_scan(s, scan.1);
            let k = span_end(s, e, CharClass::Space);
            let tail = s.subrange(k, s.len() as int);
            if tail.len() == 0 {
                Ok((s.subrange(0, scan.1), Type::Start, attributes))
            } else if tail == seq!['/'] {
                Ok((s.subrange(0, scan.1), Type::Empty, attributes))
            } else {
                Err(("found an unexpected ending of a tag"@, s.len() as int))
            }
        }
    }
}

/// What a parse of a tag returns, held against `tag_spec`.
pub open spec fn tag_matches(s: Seq<char>, r: Result<Tag, Error>) -> bool {
    match r {
        Ok(tag) => match tag_spec(s) {
            Ok(t) => {
                &&& tag.0@ == t.0
                &&& tag.1 == t.1
                &&& tag.2.wf()
                &&& forall|k: Seq<char>| #[trigger] tag.2.value_of(k) == last_value(t.2, k)
            },
            Err(_) => false,
        },
        Err(e) => match tag_spec(s) {
            Ok(_) => false,
            Err(t) => {
                &&& e.message@ == t.0
                &&& (e.line as nat, e.column as nat) == position_at(s, t.1)
            },
        },
    }
}

impl Tag {
    /// Parses the content of a tag, the text between `<` and `>`.
    pub fn parse(content: &str) -> (r: Result<Tag, Error>)
        requires
            content@.len() <= MAX_TEXT,
        ensures
            tag_matches(content@, r),
    {
        let mut parser = Parser::new(content);
        parser.process()
    }
}

/// Reads an attribute at the start of `content`: its name and its value.
pub fn read_attribute(content: &str) -> (r: Option<(String, String)>)
    requires
        content@.len() <= MAX_TEXT,
    ensures
        r is Some == attribute_scan(content@, 0).0,
        r is Some ==> r->Some_0.0@ == attribute_pair(content@, 0).0 && r->Some_0.1@
            == attribute_pair(content@, 0).1,
{
    let mut parser = Parser::new(content);
    parser.read_attribute()
}

struct Parser {
    reader: Reader,
}

impl Parser {
    fn new(content: &str) -> (r: Parser)
        requires
            content@.len() <= MAX_TEXT,
        ensures
            r.reader.wf(),
            r.reader.text() == content@,
            r.reader.cursor() == 0,
    {
        Parser { reader: Reader::new(content) }
    }

    fn raise(&self, message: &str) -> (r: Error)
        requires
            self.reader.wf(),
        ensures
            r.message@ == message@,
            (r.line as nat, r.column as nat) == position_at(
                self.reader.text(),
                self.reader.cursor(),
            ),
    {
        Error::new(self.reader.position(), message.to_owned())
    }

    fn process(&mut self) -> (r: Result<Tag, Error>)
        requires
            old(self).reader.wf(),
            old(self).reader.cursor() == 0,
        ensures
            tag_matches(old(self).reader.text(), r),
    {
        if self.reader.consume_char('/') {
            self.read_end_tag()
        } else {
            self.read_start_or_empty_tag()
        }
    }

    /// Reads an attribute at the cursor: its name and value. Where none
    /// stands, the cursor stays where it was.
    fn read_attribute(&mut self) -> (r: Option<(String, String)>)
        requires
            old(self).reader.wf(),
        ensures
            Reader::moved(
                old(self).reader,
                final(self).reader,
                if attribute_scan(old(self).reader.text(), old(self).reader.cursor()).0 {
                    attribute_scan(old(self).reader.text(), old(self).reader.cursor()).1
                } else {
                    old(self).reader.cursor()
                },
            ),
            r is Some == attribute_scan(old(self).reader.text(), old(self).reader.cursor()).0,
            r is Some ==> r->Some_0.0@ == attribute_pair(
                old(self).reader.text(),
                old(self).reader.cursor(),
            ).0 && r->Some_0.1@ == attribute_pair(
                old(self).reader.text(),
                old(self).reader.cursor(),
            ).1,
    {
        let start = self.reader.mark();
        let a = self.reader.char_index();
        let ghost before = self.reader;
        if !self.reader.consume_name() {
            proof {
                Reader::lemma_marks(before, self.reader, start);
            }
            self.reader.reset(&start);
            return None;
        }
        let j = self.reader.char_index();
        if !self.reader.consume_equality() {
            proof {
                Reader::lemma_marks(before, self.reader, start);
            }
            self.reader.reset(&start);
            return None;
        }
        let k = self.reader.char_index();
        if !self.reader.consume_attribute_value() {
            proof {
                Reader::lemma_marks(before, self.reader, start);
            }
            self.reader.reset(&start);
            return None;
        }
        let e = self.reader.char_index();
        proof {
            lemma_attribute_value_scan(self.reader.text(), k as int);
        }
        let name = self.reader.slice(a, j);
        let value = self.reader.slice(k + 1, e - 1);
        Some((name, value))
    }

    /// Reads a name at the cursor, as written.
    fn read_name(&mut self) -> (r: Result<String, Error>)
        requires
            old(self).reader.wf(),
        ensures
            Reader::moved(
                old(self).reader,
                final(self).reader,
                name_scan(old(self).reader.text(), old(self).reader.cursor()).1,
            ),
            match r {
                Ok(name) => name_scan(old(self).reader.text(), old(self).reader.cursor()).0
                    && name@ == old(self).reader.text().subrange(
                    old(self).reader.cursor(),
                    name_scan(old(self).reader.text(), old(self).reader.cursor()).1,
                ),
                Err(e) => !name_scan(old(self).reader.text(), old(self).reader.cursor()).0
                    && e.message@ == "expected a name"@ && (e.line as nat, e.column as nat)
                    == position_at(
                    old(self).reader.text(),
                    name_scan(old(self).reader.text(), old(self).reader.cursor()).1,
                ),
            },
    {
        let start = self.reader.char_index();
        if !self.reader.consume_name() {
            return Err(self.raise("expected a name"));
        }
        let end = self.reader.char_index();
        proof {
            self.reader.lemma_wf();
        }
        Ok(self.reader.slice(start, end))
    }

    /// Reads the attributes from the cursor on.
    fn read_attributes(&mut self) -> (r: Attributes)
        requires
            old(self).reader.wf(),
        ensures
            Reader::moved(
                old(self).reader,
                final(self).reader,
                attributes_scan(old(self).reader.text(), old(self).reader.cursor()).1,
            ),
            r.wf(),
            forall|k: Seq<char>| #[trigger]
                r.value_of(k) == last_value(
                    attributes_scan(old(self).reader.text(), old(self).reader.cursor()).0,
                    k,
                ),
    {
        let ghost s = self.reader.text();
        let ghost start = self.reader.cursor();
        let ghost mut collected: Seq<(Seq<char>, Seq<char>)> = Seq::empty();
        let mut attributes = Attributes::new();
        assert(collected + attributes_scan(s, start).0 =~= attributes_scan(s, start).0);
        loop
            invariant
                self.reader.wf(),
                self.reader.text() == s,
                old(self).reader.text() == s,
                start == old(self).reader.cursor(),
                self.reader.cursor() >= start,
                attributes.wf(),
                attributes_scan(s, start) == (
                    collected + attributes_scan(s, self.reader.cursor()).0,
                    attributes_scan(s, self.reader.cursor()).1,
                ),
                forall|k: Seq<char>| #[trigger]
                    attributes.value_of(k) == last_value(collected, k),
            decreases s.len() - self.reader.cursor(),
        {
            let ghost here = self.reader.cursor();
            proof {
                self.reader.lemma_wf();
            }
            self.reader.consume_whitespace();
            let ghost a = self.reader.cursor();
            proof {
                self.reader.lemma_wf();
                crate::reader::lemma_span_end(s, here, CharClass::Space);
                crate::reader::lemma_attribute_scan(s, a);
            }
            match self.read_attribute() {
                Some((name, value)) => {
                    let ghost pair = attribute_pair(s, a);
                    let ghost rest = attributes_scan(s, self.reader.cursor());
                    attributes.set(name.as_str(), value.as_str());
                    proof {
                        assert(collected + (seq![pair] + rest.0) =~= collected.push(pair)
                            + rest.0);
                        let prev = collected;
                        collected = collected.push(pair);
                        assert(collected.drop_last() =~= prev);
                        assert(collected.last() == pair);
                        assert forall|k: Seq<char>| #[trigger]
                            attributes.value_of(k) == last_value(collected, k) by {}
                    }
                },
                None => {
                    assert(collected + Seq::<(Seq<char>, Seq<char>)>::empty() =~= collected);
                    assert(self.reader.cursor() == a);
                    return attributes;
                },
            }
        }
    }

    fn read_end_tag(&mut self) -> (r: Result<Tag, Error>)
        requires
            old(self).reader.wf(),
            old(self).reader.cursor() == 1,
            old(self).reader.text().len() > 0,
            old(self).reader.text()[0] == '/',
        ensures
            tag_matches(old(self).reader.text(), r),
    {
        let name = match self.read_name() {
            Ok(name) => name,
            Err(e) => {
                return Err(e);
            },
        };
        self.reader.consume_whitespace();
        proof {
            self.reader.lemma_wf();
        }
        if !self.reader.is_done() {
            return Err(self.raise("found an end tag with excessive data"));
        }
        let attributes = Attributes::new();
        proof {
            assert forall|k: Seq<char>| #[trigger]
                attributes.value_of(k) == last_value(Seq::empty(), k) by {}
        }
        Ok(Tag(name, Type::End, attributes))
    }

    fn read_start_or_empty_tag(&mut self) -> (r: Result<Tag, Error>)
        requires
            old(self).reader.wf(),
            old(self).reader.cursor() == 0,
            !(old(self).reader.text().len() > 0 && old(self).reader.text()[0] == '/'),
        ensures
            tag_matches(old(self).reader.text(), r),
    {
        let ghost s = self.reader.text();
        let name = match self.read_name() {
            Ok(name) => name,
            Err(e) => {
                return Err(e);
            },
        };
        let attributes = self.read_attributes();
        self.reader.consume_whitespace();
        proof {
            self.reader.lemma_wf();
        }
        let k = self.reader.char_index();
        let n = self.reader.len();
        if k == n {
            assert(s.subrange(k as int, n as int).len() == 0);
            return Ok(Tag(name, Type::Start, attributes));
        }
        if k + 1 == n && self.reader.char_at(k) == '/' {
            assert(s.subrange(k as int, n as int) =~= seq!['/']);
            return Ok(Tag(name, Type::Empty, attributes));
        }
        proof {
            if s.subrange(k as int, n as int) == seq!['/'] {
                assert(s.subrange(k as int, n as int)[0] == s[k as int]);
            }
        }
        self.reader.consume_all();
        proof {
            self.reader.lemma_wf();
            crate::reader::lemma_span_end(s, k as int, CharClass::All);
        }
        Err(self.raise("found an unexpected ending of a tag"))
    }
}

} // verus!
