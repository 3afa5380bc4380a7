//! The tokenizer: a document as a sequence of text, tags, comments,
//! declarations, instructions and errors.
use vstd::prelude::*;
use crate::chars::chars_of;
use crate::error::Error;
use crate::node::Attributes;
use crate::reader::{
    bracket_scan, captured, comment_scan, lemma_span_end, run_scan, CharClass,
    Production, Reader, MAX_TEXT,
};
use crate::tag::{last_value, position_at, tag_spec, Tag, Type};

verus! {

/// An event of the tokenizer.
pub enum Event {
    /// A construct that could not be read.
    Error(Error),
    /// A tag: its name, kind and attributes.
    Tag(String, Type, Attributes),
    /// A run of text between tags, trimmed.
    Text(String),
    /// A comment, with its delimiters.
    Comment(String),
    /// A declaration, with its delimiters.
    Declaration(String),
    /// An instruction, with its delimiters.
    Instruction(String),
}

/// What an event stands for.
pub enum Token {
    /// A message, a line and a column.
    Error(Seq<char>, nat, nat),
    /// A name, a kind and the attributes in the order written.
    Tag(Seq<char>, Type, Seq<(Seq<char>, Seq<char>)>),
    /// Text.
    Text(Seq<char>),
    /// A comment.
    Comment(Seq<char>),
    /// A declaration.
    Declaration(Seq<char>),
    /// An instruction.
    Instruction(Seq<char>),
}

/// Whether `s` holds `p` at `j`.
pub open spec fn starts_at(s: Seq<char>, j: int, p: Seq<char>) -> bool {
    j + p.len() <= s.len() && s.subrange(j, j + p.len()) == p
}

/// The error of a construct that could not be read: the message, at the
/// position where reading stopped.
pub open spec fn malformed(s: Seq<char>, scan: (bool, int), message: Seq<char>) -> Token {
    Token::Error(message, position_at(s, scan.1).0, position_at(s, scan.1).1)
}

/// The token of a tag whose content lies between `from` and `to`.
pub open spec fn tag_token(s: Seq<char>, from: int, to: int) -> Token {
    let content = s.subrange(from, to);
    match tag_spec(content) {
        Ok(t) => Token::Tag(t.0, t.1, t.2),
        Err(e) => Token::Error(e.0, position_at(content, e.1).0, position_at(content, e.1).1),
    }
}

/// A comment at `j`.
pub open spec fn comment_step(s: Seq<char>, j: int) -> (Token, int) {
    let scan = comment_scan(s, j);
    match captured(s, j, scan) {
        Some(c) => (Token::Comment(c), scan.1),
        None => (malformed(s, scan, "found a malformed comment"@), scan.1),
    }
}

/// A declaration at `j`.
pub open spec fn declaration_step(s: Seq<char>, j: int) -> (Token, int) {
    let scan = bracket_scan(s, j, "<!"@);
    match captured(s, j, scan) {
        Some(c) => (Token::Declaration(c), scan.1),
        None => (malformed(s, scan, "found a malformed declaration"@), scan.1),
    }
}

/// An instruction at `j`.
pub open spec fn instruction_step(s: Seq<char>, j: int) -> (Token, int) {
    let scan = bracket_scan(s, j, "<?"@);
    match captured(s, j, scan) {
        Some(c) => (Token::Instruction(c), scan.1),
        None => (malformed(s, scan, "found a malformed instruction"@), scan.1),
    }
}

/// A tag at `j`.
pub open spec fn tag_step(s: Seq<char>, j: int) -> (Token, int) {
    let scan = bracket_scan(s, j, "<"@);
    match captured(s, j, scan) {
        Some(c) => (tag_token(s, j + 1, scan.1 - 1), scan.1),
        None => (malformed(s, scan, "found a malformed tag"@), scan.1),
    }
}

/// The construct at `j`, told apart by its first characters.
pub open spec fn angle_step(s: Seq<char>, j: int) -> (Option<Token>, int) {
    let step = if starts_at(s, j, "<!--"@) {
        comment_step(s, j)
    } else if starts_at(s, j, "<!"@) {
        declaration_step(s, j)
    } else if starts_at(s, j, "<?"@) {
        instruction_step(s, j)
    } else {
        tag_step(s, j)
    };
    if j >= s.len() {
        (None, j)
    } else {
        (Some(step.0), step.1)
    }
}

/// One step of the tokenizer from `i`: the token, or none at the end of
/// the text, and where the next step starts.
pub open spec fn step(s: Seq<char>, i: int) -> (Option<Token>, int) {
    let text = run_scan(s, i, CharClass::Not('<'));
    match captured(s, i, text) {
        Some(t) => (Some(Token::Text(t)), text.1),
        None => angle_step(s, text.1),
    }
}

/// Whether an event is what the token stands for.
pub open spec fn event_is(e: Event, t: Token) -> bool {
    match (e, t) {
        (Event::Error(x), Token::Error(m, l, c)) => x.message@ == m && x.line == l && x.column
            == c,
        (Event::Tag(n, k, a), Token::Tag(tn, tk, ta)) => n@ == tn && k == tk && a.wf() && forall|
            key: Seq<char>,
        | #[trigger] a.value_of(key) == last_value(ta, key),
        (Event::Text(x), Token::Text(y)) => x@ == y,
        (Event::Comment(x), Token::Comment(y)) => x@ == y,
        (Event::Declaration(x), Token::Declaration(y)) => x@ == y,
        (Event::Instruction(x), Token::Instruction(y)) => x@ == y,
        _ => false,
    }
}

/// The tokenizer of a document.
pub struct Parser {
    reader: Reader,
}

/// A tokenizer of `content`.
pub fn read(content: &str) -> (r: Parser)
    requires
        content@.len() <= MAX_TEXT,
    ensures
        r.wf(),
        r.text() == content@,
        r.cursor() == 0,
{
    Parser::new(content)
}

impl Parser {
    pub closed spec fn text(&self) -> Seq<char> {
        self.reader.text()
    }

    /// Where the next step starts.
    pub closed spec fn cursor(&self) -> int {
        self.reader.cursor()
    }

    pub closed spec fn wf(&self) -> bool {
        self.reader.wf()
    }

    /// A tokenizer at the start of `content`.
    pub fn new(content: &str) -> (r: Parser)
        requires
            content@.len() <= MAX_TEXT,
        ensures
            r.wf(),
            r.text() == content@,
            r.cursor() == 0,
    {
        Parser { reader: Reader::new(content) }
    }

    fn raise(&self, message: &str) -> (r: Event)
        requires
            self.reader.wf(),
        ensures
            event_is(
                r,
                Token::Error(
                    message@,
                    position_at(self.reader.text(), self.reader.cursor()).0,
                    position_at(self.reader.text(), self.reader.cursor()).1,
                ),
            ),
    {
        Event::Error(Error::new(self.reader.position(), message.to_owned()))
    }

    /// The next event; none once the text is read. Each event moves the
    /// cursor forward, so a caller that keeps asking comes to the end.
    pub fn next(&mut self) -> (r: Option<Event>)
        requires
            old(self).wf(),
        ensures
            final(self).wf(),
            final(self).text() == old(self).text(),
            final(self).cursor() == step(old(self).text(), old(self).cursor()).1,
            match (r, step(old(self).text(), old(self).cursor()).0) {
                (None, None) => true,
                (Some(e), Some(t)) => event_is(e, t),
                _ => false,
            },
            r is Some ==> final(self).cursor() > old(self).cursor(),
            r is None ==> final(self).cursor() == final(self).text().len(),
    {
        let ghost s = self.reader.text();
        let ghost i = self.reader.cursor();
        proof {
            self.reader.lemma_wf();
            lemma_span_end(s, i, CharClass::Not('<'));
            let j = run_scan(s, i, CharClass::Not('<')).1;
            if j < s.len() {
                lemma_angle_progress(s, j);
            }
        }
        match self.reader.capture(&Production::Run(CharClass::Not('<'))) {
            Some(text) => Some(Event::Text(text)),
            None => self.next_angle(),
        }
    }

    fn next_angle(&mut self) -> (r: Option<Event>)
        requires
            old(self).reader.wf(),
        ensures
            final(self).reader.wf(),
            final(self).reader.text() == old(self).reader.text(),
            final(self).reader.cursor() == angle_step(
                old(self).reader.text(),
                old(self).reader.cursor(),
            ).1,
            match (r, angle_step(old(self).reader.text(), old(self).reader.cursor()).0) {
                (None, None) => true,
                (Some(e), Some(t)) => event_is(e, t),
                _ => false,
            },
    {
        let head = self.reader.peek_many(4);
        let ghost s = self.reader.text();
        let ghost j = self.reader.cursor();
        proof {
            self.reader.lemma_wf();
            reveal_strlit("<!--");
            reveal_strlit("<!");
            reveal_strlit("<?");
            lemma_head(s, j, head@, "<!--"@);
            lemma_head(s, j, head@, "<!"@);
            lemma_head(s, j, head@, "<?"@);
        }
        if head.len() == 0 {
            return None;
        }
        if starts_with(&head, &chars_of("<!--")) {
            self.read_comment()
        } else if starts_with(&head, &chars_of("<!")) {
            self.read_declaration()
        } else if starts_with(&head, &chars_of("<?")) {
            self.read_instruction()
        } else {
            self.read_tag()
        }
    }
    fn read_comment(&mut self) -> (r: Option<Event>)
        requires
            old(self).reader.wf(),
        ensures
            final(self).reader.wf(),
            final(self).reader.text() == old(self).reader.text(),
            final(self).reader.cursor() == comment_step(
                old(self).reader.text(),
                old(self).reader.cursor(),
            ).1,
            r is Some && event_is(
                r->Some_0,
                comment_step(old(self).reader.text(), old(self).reader.cursor()).0,
            ),
    {
        match self.reader.capture(&Production::Comment) {
            None => Some(self.raise("found a malformed comment")),
            Some(content) => Some(Event::Comment(content)),
        }
    }

    fn read_declaration(&mut self) -> (r: Option<Event>)
        requires
            old(self).reader.wf(),
        ensures
            final(self).reader.wf(),
            final(self).reader.text() == old(self).reader.text(),
            final(self).reader.cursor() == declaration_step(
                old(self).reader.text(),
                old(self).reader.cursor(),
            ).1,
            r is Some && event_is(
                r->Some_0,
                declaration_step(old(self).reader.text(), old(self).reader.cursor()).0,
            ),
    {
        match self.reader.capture(&Production::Declaration) {
            None => Some(self.raise("found a malformed declaration")),
            Some(content) => Some(Event::Declaration(content)),
        }
    }

    fn read_instruction(&mut self) -> (r: Option<Event>)
        requires
            old(self).reader.wf(),
        ensures
            final(self).reader.wf(),
            final(self).reader.text() == old(self).reader.text(),
            final(self).reader.cursor() == instruction_step(
                old(self).reader.text(),
                old(self).reader.cursor(),
            ).1,
            r is Some && event_is(
                r->Some_0,
                instruction_step(old(self).reader.text(), old(self).reader.cursor()).0,
            ),
    {
        match self.reader.capture(&Production::Instruction) {
            None => Some(self.raise("found a malformed instruction")),
            Some(content) => Some(Event::Instruction(content)),
        }
    }

    fn read_tag(&mut self) -> (r: Option<Event>)
        requires
            old(self).reader.wf(),
        ensures
            final(self).reader.wf(),
            final(self).reader.text() == old(self).reader.text(),
            final(self).reader.cursor() == tag_step(
                old(self).reader.text(),
                old(self).reader.cursor(),
            ).1,
            r is Some && event_is(
                r->Some_0,
                tag_step(old(self).reader.text(), old(self).reader.cursor()).0,
            ),
    {
        let ghost s = self.reader.text();
        let start = self.reader.char_index();
        proof {
            self.reader.lemma_wf();
            crate::reader::lemma_bracket_scan(s, start as int, "<"@);
            assert("<"@.len() == 1) by {
                reveal_strlit("<");
            }
        }
        match self.reader.capture(&Production::Tag) {
            None => Some(self.raise("found a malformed tag")),
            Some(_) => {
                let end = self.reader.char_index();
                let content = self.reader.slice(start + 1, end - 1);
                match Tag::parse(content.as_str()) {
                    Ok(Tag(name, kind, attributes)) => Some(Event::Tag(name, kind, attributes)),
                    Err(error) => Some(Event::Error(error)),
                }
            },
        }
    }
}

proof fn lemma_head(s: Seq<char>, j: int, head: Seq<char>, p: Seq<char>)
    requires
        0 <= j <= s.len(),
        p.len() <= 4,
        head == s.subrange(j, if j + 4 <= s.len() { j + 4 } else { s.len() as int }),
    ensures
        (p.len() <= head.len() && head.subrange(0, p.len() as int) == p) == starts_at(s, j, p),
{
    if p.len() <= head.len() {
        assert(head.subrange(0, p.len() as int) =~= s.subrange(j, j + p.len()));
    }
}

proof fn lemma_angle_progress(s: Seq<char>, j: int)
    requires
        0 <= j < s.len(),
        s[j] == '<',
    ensures
        angle_step(s, j).1 > j,
{
    reveal_strlit("<!--");
    reveal_strlit("-->");
    reveal_strlit("<!");
    reveal_strlit("<?");
    reveal_strlit("<");
    crate::reader::lemma_literal_scan(s, j + 1, "<!--"@.drop_first());
    crate::reader::lemma_literal_scan(s, j + 1, "<!"@.drop_first());
    crate::reader::lemma_literal_scan(s, j + 1, "<?"@.drop_first());
    crate::reader::lemma_literal_scan(s, j + 1, "<"@.drop_first());
    let a = crate::reader::literal_scan(s, j, "<!--"@).1;
    crate::reader::lemma_comment_body_end(s, a);
    crate::reader::lemma_literal_scan(s, crate::reader::comment_body_end(s, a), "-->"@);
    crate::reader::lemma_bracket_scan(s, j, "<!"@);
    crate::reader::lemma_bracket_scan(s, j, "<?"@);
    crate::reader::lemma_bracket_scan(s, j, "<"@);
    let b = crate::reader::literal_scan(s, j, "<!"@).1;
    let c = crate::reader::literal_scan(s, j, "<?"@).1;
    let d = crate::reader::literal_scan(s, j, "<"@).1;
    crate::reader::lemma_span_end(s, b, CharClass::Not('>'));
    crate::reader::lemma_span_end(s, c, CharClass::Not('>'));
    crate::reader::lemma_span_end(s, d, CharClass::Not('>'));
}

/// Whether `v` begins with `p`.
fn starts_with(v: &Vec<char>, p: &Vec<char>) -> (r: bool)
    ensures
        r == (p@.len() <= v@.len() && v@.subrange(0, p@.len() as int) == p@),
{
    if p.len() > v.len() {
        return false;
    }
    let mut i: usize = 0;
    while i < p.len()
        invariant
            p.len() <= v.len(),
            i <= p.len(),
            v@.subrange(0, i as int) == p@.subrange(0, i as int),
        decreases p.len() - i,
    {
        if v[i] != p[i] {
            assert(v@.subrange(0, p@.len() as int)[i as int] != p@[i as int]);
            return false;
        }
        assert(v@.subrange(0, i + 1) =~= v@.subrange(0, i as int).push(v@[i as int]));
        assert(p@.subrange(0, i + 1) =~= p@.subrange(0, i as int).push(p@[i as int]));
        i += 1;
    }
    assert(p@.subrange(0, p@.len() as int) =~= p@);
    true
}

} // verus!
