//! A cursor over a text that tracks its line, column and byte offset, with
//! the consumers of the markup and path grammars built on it.
use vstd::prelude::*;
use crate::chars::{
    string_of, trimmed, trimmed_range,
    chars_of, contains_char, is_digit, is_hex_digit, is_name_char, is_name_start, is_xml_char,
    is_xml_space, name_char, name_start, xml_char,
};

verus! {

/// The longest text, in characters, that a reader takes: its positions and
/// byte offsets then fit in `usize`.
pub const MAX_TEXT: usize = usize::MAX / 16;

/// A class of characters that the reader can consume runs of.
pub enum CharClass {
    /// Every character.
    All,
    /// `0`–`9`.
    Digit,
    /// Hexadecimal digits.
    HexDigit,
    /// XML white space.
    Space,
    /// XML name start characters.
    NameStart,
    /// XML name characters.
    Name,
    /// XML characters.
    Character,
    /// Exactly this character.
    Is(char),
    /// Any character but this one.
    Not(char),
    /// Any character of the vector.
    AnyOf(Vec<char>),
    /// Any character not in the vector.
    NoneOf(Vec<char>),
    /// The characters that may stand in an attribute value delimited by
    /// this quote: anything but `<`, `&` and the quote.
    Value(char),
}

impl CharClass {
    pub open spec fn holds(&self, c: char) -> bool {
        match self {
            CharClass::All => true,
            CharClass::Digit => is_digit(c),
            CharClass::HexDigit => is_hex_digit(c),
            CharClass::Space => is_xml_space(c),
            CharClass::NameStart => is_name_start(c),
            CharClass::Name => is_name_char(c),
            CharClass::Character => is_xml_char(c),
            CharClass::Is(t) => c == *t,
            CharClass::Not(t) => c != *t,
            CharClass::AnyOf(v) => v@.contains(c),
            CharClass::NoneOf(v) => !v@.contains(c),
            CharClass::Value(q) => c != '<' && c != '&' && c != *q,
        }
    }

    /// Whether the class holds the character.
    pub fn test(&self, c: char) -> (r: bool)
        ensures
            r == self.holds(c),
    {
        match self {
            CharClass::All => true,
            CharClass::Digit => '0' <= c && c <= '9',
            CharClass::HexDigit => ('0' <= c && c <= '9') || ('a' <= c && c <= 'f') || ('A' <= c
                && c <= 'F'),
            CharClass::Space => c == ' ' || c == '\t' || c == '\r' || c == '\n',
            CharClass::NameStart => name_start(c),
            CharClass::Name => name_char(c),
            CharClass::Character => xml_char(c),
            CharClass::Is(t) => c == *t,
            CharClass::Not(t) => c != *t,
            CharClass::AnyOf(v) => contains_char(v, c),
            CharClass::NoneOf(v) => !contains_char(v, c),
            CharClass::Value(q) => c != '<' && c != '&' && c != *q,
        }
    }
}

/// Where a run of characters of the class that starts at `i` ends.
pub open spec fn span_end(s: Seq<char>, i: int, class: CharClass) -> int
    decreases s.len() - i,
{
    if 0 <= i < s.len() && class.holds(s[i]) {
        span_end(s, i + 1, class)
    } else {
        i
    }
}

pub proof fn lemma_span_end(s: Seq<char>, i: int, class: CharClass)
    requires
        0 <= i <= s.len(),
    ensures
        i <= span_end(s, i, class) <= s.len(),
        forall|j: int| i <= j < span_end(s, i, class) ==> class.holds(#[trigger] s[j]),
        span_end(s, i, class) < s.len() ==> !class.holds(s[span_end(s, i, class)]),
    decreases s.len() - i,
{
    if i < s.len() && class.holds(s[i]) {
        lemma_span_end(s, i + 1, class);
    }
}

/// The line at the end of a text: one more than its line feeds.
pub open spec fn line_of(s: Seq<char>) -> nat
    decreases s.len(),
{
    if s.len() == 0 {
        1
    } else if s.last() == '\n' {
        line_of(s.drop_last()) + 1
    } else {
        line_of(s.drop_last())
    }
}

/// The column at the end of a text: one more than the characters after its
/// last line feed.
pub open spec fn column_of(s: Seq<char>) -> nat
    decreases s.len(),
{
    if s.len() == 0 {
        1
    } else if s.last() == '\n' {
        1
    } else {
        column_of(s.drop_last()) + 1
    }
}

/// The number of bytes that UTF-8 takes for a character.
pub open spec fn char_width(c: char) -> nat {
    if (c as u32) < 0x80 {
        1
    } else if (c as u32) < 0x800 {
        2
    } else if (c as u32) < 0x10000 {
        3
    } else {
        4
    }
}

/// The number of bytes that UTF-8 takes for a text.
pub open spec fn width_of(s: Seq<char>) -> nat
    decreases s.len(),
{
    if s.len() == 0 {
        0
    } else {
        width_of(s.drop_last()) + char_width(s.last())
    }
}

proof fn lemma_position_bounds(s: Seq<char>)
    ensures
        line_of(s) <= s.len() + 1,
        column_of(s) <= s.len() + 1,
        width_of(s) <= 4 * s.len(),
    decreases s.len(),
{
    if s.len() > 0 {
        lemma_position_bounds(s.drop_last());
    }
}

fn utf8_width(c: char) -> (r: usize)
    ensures
        r == char_width(c),
{
    let u = c as u32;
    if u < 0x80 {
        1
    } else if u < 0x800 {
        2
    } else if u < 0x10000 {
        3
    } else {
        4
    }
}

/// Matching `lit` character by character from `i`: whether all of it
/// matched, and where matching stopped.
pub open spec fn literal_scan(s: Seq<char>, i: int, lit: Seq<char>) -> (bool, int)
    decreases lit.len(),
{
    if lit.len() == 0 {
        (true, i)
    } else if 0 <= i < s.len() && s[i] == lit[0] {
        literal_scan(s, i + 1, lit.drop_first())
    } else {
        (false, i)
    }
}

/// Whether the character at `i` is `c`.
pub open spec fn at(s: Seq<char>, i: int, c: char) -> bool {
    0 <= i < s.len() && s[i] == c
}

/// A run of characters of the class: whether it is not empty, and its end.
pub open spec fn run_scan(s: Seq<char>, i: int, class: CharClass) -> (bool, int) {
    let e = span_end(s, i, class);
    (e > i, e)
}

/// Where an optional `+` or `-` at `i` ends.
pub open spec fn sign_end(s: Seq<char>, i: int) -> int {
    if at(s, i, '+') || at(s, i, '-') {
        i + 1
    } else {
        i
    }
}

/// The `Name` production of XML.
pub open spec fn name_scan(s: Seq<char>, i: int) -> (bool, int) {
    if 0 <= i < s.len() && is_name_start(s[i]) {
        (true, span_end(s, i + 1, CharClass::Name))
    } else {
        (false, i)
    }
}

/// The `Eq` production of XML: `=` with optional white space around it.
pub open spec fn equality_scan(s: Seq<char>, i: int) -> (bool, int) {
    let a = span_end(s, i, CharClass::Space);
    if at(s, a, '=') {
        (true, span_end(s, a + 1, CharClass::Space))
    } else {
        (false, a)
    }
}

/// A `;` that closes a reference.
pub open spec fn semicolon_scan(s: Seq<char>, k: int) -> (bool, int) {
    if at(s, k, ';') {
        (true, k + 1)
    } else {
        (false, k)
    }
}

/// The `Reference` production of XML: `&name;`, `&#digits;` or
/// `&#xhexdigits;`.
pub open spec fn reference_scan(s: Seq<char>, i: int) -> (bool, int) {
    if !at(s, i, '&') {
        (false, i)
    } else if at(s, i + 1, '#') {
        if at(s, i + 2, 'x') {
            let k = span_end(s, i + 3, CharClass::HexDigit);
            if k == i + 3 {
                (false, k)
            } else {
                semicolon_scan(s, k)
            }
        } else {
            let k = span_end(s, i + 2, CharClass::Digit);
            if k == i + 2 {
                (false, k)
            } else {
                semicolon_scan(s, k)
            }
        }
    } else {
        let (named, k) = name_scan(s, i + 1);
        if !named {
            (false, k)
        } else {
            semicolon_scan(s, k)
        }
    }
}

/// The content of an attribute value after its opening quote `q`, up to
/// and including the closing quote.
pub open spec fn value_body_scan(s: Seq<char>, k: int, q: char) -> (bool, int)
    decreases s.len() - k,
{
    let e = span_end(s, k, CharClass::Value(q));
    if at(s, e, '&') {
        let (ok, f) = reference_scan(s, e);
        if !ok {
            (false, f)
        } else if k < f <= s.len() {
            value_body_scan(s, f, q)
        } else {
            (false, f)
        }
    } else if at(s, e, q) {
        (true, e + 1)
    } else {
        (false, e)
    }
}

/// The `AttValue` production of XML.
pub open spec fn attribute_value_scan(s: Seq<char>, i: int) -> (bool, int) {
    if at(s, i, '\'') {
        value_body_scan(s, i + 1, '\'')
    } else if at(s, i, '"') {
        value_body_scan(s, i + 1, '"')
    } else {
        (false, i)
    }
}

/// The `Attribute` production of XML: a name, `=` and a value.
pub open spec fn attribute_scan(s: Seq<char>, i: int) -> (bool, int) {
    let (named, j) = name_scan(s, i);
    if !named {
        (false, j)
    } else {
        let (eq, k) = equality_scan(s, j);
        if !eq {
            (false, k)
        } else {
            attribute_value_scan(s, k)
        }
    }
}

/// Where the body of a comment that starts at `k` ends: at the first
/// character that is not an XML character, or at a `-` that another `-`,
/// a non-character or the end of the text follows.
pub open spec fn comment_body_end(s: Seq<char>, k: int) -> int
    decreases s.len() - k,
{
    if !(0 <= k < s.len()) {
        k
    } else if s[k] == '-' {
        if k + 1 < s.len() && s[k + 1] != '-' && is_xml_char(s[k + 1]) {
            comment_body_end(s, k + 1)
        } else {
            k
        }
    } else if is_xml_char(s[k]) {
        comment_body_end(s, k + 1)
    } else {
        k
    }
}

/// A comment: `<!--`, its body, `-->`.
pub open spec fn comment_scan(s: Seq<char>, i: int) -> (bool, int) {
    let (opened, a) = literal_scan(s, i, "<!--"@);
    if !opened {
        (false, a)
    } else {
        literal_scan(s, comment_body_end(s, a), "-->"@)
    }
}

/// `open`, at least one character other than `>`, then `>`: a
/// declaration, an instruction or a tag.
pub open spec fn bracket_scan(s: Seq<char>, i: int, open: Seq<char>) -> (bool, int) {
    let (opened, j) = literal_scan(s, i, open);
    if !opened {
        (false, j)
    } else {
        let k = span_end(s, j, CharClass::Not('>'));
        if k == j {
            (false, j)
        } else if at(s, k, '>') {
            (true, k + 1)
        } else {
            (false, k)
        }
    }
}

/// The exponent of a number, if an `e` or `E` stands at `m`.
pub open spec fn exponent_scan(s: Seq<char>, m: int) -> (bool, int) {
    if at(s, m, 'e') || at(s, m, 'E') {
        let n = sign_end(s, m + 1);
        let p = span_end(s, n, CharClass::Digit);
        (p > n, p)
    } else {
        (true, m)
    }
}

/// The fraction of a number after its `.` at `k`: at least one digit, then
/// an optional exponent.
pub open spec fn fraction_scan(s: Seq<char>, k: int) -> (bool, int) {
    let m = span_end(s, k + 1, CharClass::Digit);
    if m == k + 1 {
        (false, m)
    } else {
        exponent_scan(s, m)
    }
}

/// A number: an optional sign; digits with an optional fraction, or a
/// fraction alone; an optional exponent. A `.` needs digits after it.
pub open spec fn number_scan(s: Seq<char>, i: int) -> (bool, int) {
    let j = sign_end(s, i);
    let k = span_end(s, j, CharClass::Digit);
    if at(s, k, '.') {
        fraction_scan(s, k)
    } else if k > j {
        exponent_scan(s, k)
    } else {
        (false, k)
    }
}

pub proof fn lemma_name_scan(s: Seq<char>, i: int)
    requires
        0 <= i <= s.len(),
    ensures
        i <= name_scan(s, i).1 <= s.len(),
        name_scan(s, i).0 ==> name_scan(s, i).1 > i,
{
    if i < s.len() && is_name_start(s[i]) {
        lemma_span_end(s, i + 1, CharClass::Name);
    }
}

pub proof fn lemma_reference_scan(s: Seq<char>, i: int)
    requires
        0 <= i <= s.len(),
    ensures
        i <= reference_scan(s, i).1 <= s.len(),
        reference_scan(s, i).0 ==> reference_scan(s, i).1 > i,
{
    if at(s, i, '&') {
        if at(s, i + 1, '#') {
            if at(s, i + 2, 'x') {
                lemma_span_end(s, i + 3, CharClass::HexDigit);
            } else {
                lemma_span_end(s, i + 2, CharClass::Digit);
            }
        } else {
            lemma_name_scan(s, i + 1);
        }
    }
}

pub proof fn lemma_value_body_scan(s: Seq<char>, k: int, q: char)
    requires
        0 <= k <= s.len(),
    ensures
        k <= value_body_scan(s, k, q).1 <= s.len(),
        value_body_scan(s, k, q).0 ==> value_body_scan(s, k, q).1 >= k + 1,
    decreases s.len() - k,
{
    lemma_span_end(s, k, CharClass::Value(q));
    let e = span_end(s, k, CharClass::Value(q));
    if at(s, e, '&') {
        lemma_reference_scan(s, e);
        let (ok, f) = reference_scan(s, e);
        if ok && k < f <= s.len() {
            lemma_value_body_scan(s, f, q);
        }
    }
}

pub proof fn lemma_attribute_value_scan(s: Seq<char>, i: int)
    requires
        0 <= i <= s.len(),
    ensures
        i <= attribute_value_scan(s, i).1 <= s.len(),
        attribute_value_scan(s, i).0 ==> attribute_value_scan(s, i).1 >= i + 2,
{
    if at(s, i, '\'') {
        lemma_value_body_scan(s, i + 1, '\'');
    } else if at(s, i, '"') {
        lemma_value_body_scan(s, i + 1, '"');
    }
}

pub proof fn lemma_attribute_scan(s: Seq<char>, i: int)
    requires
        0 <= i <= s.len(),
    ensures
        i <= attribute_scan(s, i).1 <= s.len(),
        attribute_scan(s, i).0 ==> attribute_scan(s, i).1 > i,
{
    lemma_name_scan(s, i);
    let j = name_scan(s, i).1;
    lemma_span_end(s, j, CharClass::Space);
    let a = span_end(s, j, CharClass::Space);
    if at(s, a, '=') {
        lemma_span_end(s, a + 1, CharClass::Space);
    }
    let k = equality_scan(s, j).1;
    lemma_attribute_value_scan(s, k);
}

pub proof fn lemma_literal_scan(s: Seq<char>, i: int, lit: Seq<char>)
    requires
        0 <= i <= s.len(),
    ensures
        i <= literal_scan(s, i, lit).1 <= s.len(),
        literal_scan(s, i, lit).0 ==> literal_scan(s, i, lit).1 == i + lit.len(),
    decreases lit.len(),
{
    if lit.len() > 0 && 0 <= i < s.len() && s[i] == lit[0] {
        lemma_literal_scan(s, i + 1, lit.drop_first());
    }
}

pub proof fn lemma_bracket_scan(s: Seq<char>, i: int, open: Seq<char>)
    requires
        0 <= i <= s.len(),
    ensures
        i <= bracket_scan(s, i, open).1 <= s.len(),
        bracket_scan(s, i, open).0 ==> bracket_scan(s, i, open).1 >= i + open.len() + 2,
{
    lemma_literal_scan(s, i, open);
    let j = literal_scan(s, i, open).1;
    lemma_span_end(s, j, CharClass::Not('>'));
}

pub proof fn lemma_comment_body_end(s: Seq<char>, k: int)
    requires
        0 <= k <= s.len(),
    ensures
        k <= comment_body_end(s, k) <= s.len(),
    decreases s.len() - k,
{
    if k < s.len() {
        if s[k] == '-' {
            if k + 1 < s.len() && s[k + 1] != '-' && is_xml_char(s[k + 1]) {
                lemma_comment_body_end(s, k + 1);
            }
        } else if is_xml_char(s[k]) {
            lemma_comment_body_end(s, k + 1);
        }
    }
}

/// A grammar production that the reader can consume and capture.
pub enum Production {
    /// A run of characters of the class, not empty.
    Run(CharClass),
    /// An XML name.
    Name,
    /// An XML attribute.
    Attribute,
    /// An XML reference.
    Reference,
    /// A comment.
    Comment,
    /// A declaration.
    Declaration,
    /// An instruction.
    Instruction,
    /// A tag.
    Tag,
    /// A number.
    Number,
}

impl Production {
    /// What consuming the production at `i` gives.
    pub open spec fn scan(&self, s: Seq<char>, i: int) -> (bool, int) {
        match self {
            Production::Run(class) => run_scan(s, i, *class),
            Production::Name => name_scan(s, i),
            Production::Attribute => attribute_scan(s, i),
            Production::Reference => reference_scan(s, i),
            Production::Comment => comment_scan(s, i),
            Production::Declaration => bracket_scan(s, i, "<!"@),
            Production::Instruction => bracket_scan(s, i, "<?"@),
            Production::Tag => bracket_scan(s, i, "<"@),
            Production::Number => number_scan(s, i),
        }
    }
}

/// What a capture of the text from `start` to `end` gives: the text
/// trimmed, if the scan succeeded and something is left of it.
pub open spec fn captured(s: Seq<char>, start: int, scan: (bool, int)) -> Option<Seq<char>> {
    if scan.0 && trimmed(s.subrange(start, scan.1)).len() > 0 {
        Some(trimmed(s.subrange(start, scan.1)))
    } else {
        None
    }
}

/// A place in a reader's text that the reader can go back to.
pub struct Mark {
    index: usize,
    line: usize,
    column: usize,
    offset: usize,
}

impl Mark {
    /// The index, in characters, of the place.
    pub closed spec fn cursor(&self) -> int {
        self.index as int
    }
}

/// A reader: a text and a cursor in it.
pub struct Reader {
    chars: Vec<char>,
    index: usize,
    line: usize,
    column: usize,
    offset: usize,
}

impl Reader {
    /// The text read.
    pub closed spec fn text(&self) -> Seq<char> {
        self.chars@
    }

    /// The index, in characters, of the next character to read.
    pub closed spec fn cursor(&self) -> int {
        self.index as int
    }

    pub closed spec fn wf(&self) -> bool {
        &&& self.index <= self.chars.len()
        &&& self.chars.len() <= MAX_TEXT
        &&& self.line == line_of(self.chars@.take(self.index as int))
        &&& self.column == column_of(self.chars@.take(self.index as int))
        &&& self.offset == width_of(self.chars@.take(self.index as int))
    }

    /// `new` is `old` with its cursor moved to `to`.
    pub open spec fn moved(old: Reader, new: Reader, to: int) -> bool {
        &&& new.wf()
        &&& new.text() == old.text()
        &&& new.cursor() == to
        &&& new.cursor() >= old.cursor()
    }

    /// What a scan from the cursor gives: whether it succeeded, and where
    /// the cursor is left.
    pub open spec fn scanned(old: Reader, new: Reader, r: bool, scan: (bool, int)) -> bool {
        &&& Reader::moved(old, new, scan.1)
        &&& r == scan.0
    }

    pub proof fn lemma_wf(&self)
        requires
            self.wf(),
        ensures
            0 <= self.cursor() <= self.text().len() <= MAX_TEXT,
    {
    }

    /// Whether `m` is a place in this reader's text.
    pub closed spec fn marks(&self, m: Mark) -> bool {
        &&& m.index <= self.chars.len()
        &&& m.line == line_of(self.chars@.take(m.index as int))
        &&& m.column == column_of(self.chars@.take(m.index as int))
        &&& m.offset == width_of(self.chars@.take(m.index as int))
    }

    /// The place of the cursor.
    pub fn mark(&self) -> (r: Mark)
        requires
            self.wf(),
        ensures
            self.marks(r),
            r.cursor() == self.cursor(),
    {
        Mark { index: self.index, line: self.line, column: self.column, offset: self.offset }
    }

    /// Moves the cursor back, or on, to a place of this text.
    pub fn reset(&mut self, m: &Mark)
        requires
            old(self).wf(),
            old(self).marks(*m),
        ensures
            final(self).wf(),
            final(self).text() == old(self).text(),
            final(self).cursor() == m.cursor(),
            final(self).marks(*m),
    {
        self.index = m.index;
        self.line = m.line;
        self.column = m.column;
        self.offset = m.offset;
    }

    /// A place stays a place of the text when the cursor moves.
    pub proof fn lemma_marks(old: Reader, new: Reader, m: Mark)
        requires
            old.marks(m),
            new.text() == old.text(),
        ensures
            new.marks(m),
    {
    }

    /// A reader at the start of `content`.
    pub fn new(content: &str) -> (r: Reader)
        requires
            content@.len() <= MAX_TEXT,
        ensures
            r.wf(),
            r.text() == content@,
            r.cursor() == 0,
    {
        let chars = chars_of(content);
        assert(chars@.take(0) =~= Seq::<char>::empty());
        Reader { chars, index: 0, line: 1, column: 1, offset: 0 }
    }

    /// The next character, if any, without moving.
    pub fn peek(&self) -> (r: Option<char>)
        requires
            self.wf(),
        ensures
            r == (if self.cursor() < self.text().len() {
                Some(self.text()[self.cursor()])
            } else {
                None::<char>
            }),
    {
        if self.index < self.chars.len() {
            Some(self.chars[self.index])
        } else {
            None
        }
    }

    /// Up to `n` characters from the cursor, without moving.
    pub fn peek_many(&self, n: usize) -> (r: Vec<char>)
        requires
            self.wf(),
        ensures
            r@ == self.text().subrange(
                self.cursor(),
                if self.cursor() + n <= self.text().len() {
                    self.cursor() + n
                } else {
                    self.text().len() as int
                },
            ),
    {
        let end = if n <= self.chars.len() - self.index {
            self.index + n
        } else {
            self.chars.len()
        };
        let mut r: Vec<char> = Vec::new();
        let mut i = self.index;
        while i < end
            invariant
                self.index <= i <= end <= self.chars.len(),
                r@ =~= self.chars@.subrange(self.index as int, i as int),
            decreases end - i,
        {
            r.push(self.chars[i]);
            i += 1;
        }
        r
    }

    /// Whether the whole text has been read.
    pub fn is_done(&self) -> (r: bool)
        requires
            self.wf(),
        ensures
            r == (self.cursor() == self.text().len()),
    {
        self.index == self.chars.len()
    }

    /// The line and column of the cursor, both counted from 1.
    pub fn position(&self) -> (r: (usize, usize))
        requires
            self.wf(),
        ensures
            r.0 == line_of(self.text().take(self.cursor())),
            r.1 == column_of(self.text().take(self.cursor())),
    {
        (self.line, self.column)
    }

    /// The number of bytes read.
    pub fn offset(&self) -> (r: usize)
        requires
            self.wf(),
        ensures
            r == width_of(self.text().take(self.cursor())),
    {
        self.offset
    }

    /// The index, in characters, of the cursor.
    pub fn char_index(&self) -> (r: usize)
        requires
            self.wf(),
        ensures
            r == self.cursor(),
    {
        self.index
    }

    /// The character at index `i`.
    pub fn char_at(&self, i: usize) -> (r: char)
        requires
            self.wf(),
            i < self.text().len(),
        ensures
            r == self.text()[i as int],
    {
        self.chars[i]
    }

    /// The length of the text, in characters.
    pub fn len(&self) -> (r: usize)
        requires
            self.wf(),
        ensures
            r == self.text().len(),
    {
        self.chars.len()
    }

    /// The characters from `from` to `to`.
    pub fn chars(&self, from: usize, to: usize) -> (r: Vec<char>)
        requires
            self.wf(),
            from <= to <= self.text().len(),
        ensures
            r@ == self.text().subrange(from as int, to as int),
    {
        let mut v: Vec<char> = Vec::new();
        let mut i = from;
        while i < to
            invariant
                from <= i <= to <= self.chars.len(),
                v@ =~= self.chars@.subrange(from as int, i as int),
            decreases to - i,
        {
            v.push(self.chars[i]);
            i += 1;
        }
        v
    }

    /// The characters from `from` to `to`.
    pub fn slice(&self, from: usize, to: usize) -> (r: String)
        requires
            self.wf(),
            from <= to <= self.text().len(),
        ensures
            r@ == self.text().subrange(from as int, to as int),
    {
        string_of(&self.chars(from, to))
    }

    /// Reads one character, if any is left.
    pub fn next(&mut self) -> (r: Option<char>)
        requires
            old(self).wf(),
        ensures
            old(self).cursor() < old(self).text().len() ==> Reader::moved(
                *old(self),
                *final(self),
                old(self).cursor() + 1,
            ) && r == Some(old(self).text()[old(self).cursor()]),
            old(self).cursor() == old(self).text().len() ==> *final(self) == *old(self) && r
                is None,
    {
        if self.index >= self.chars.len() {
            return None;
        }
        let c = self.chars[self.index];
        let ghost before = self.chars@.take(self.index as int);
        let ghost after = self.chars@.take(self.index + 1);
        proof {
            assert(after.drop_last() =~= before);
            assert(after.last() == c);
            lemma_position_bounds(before);
        }
        if c == '\n' {
            self.line = self.line + 1;
            self.column = 1;
        } else {
            self.column = self.column + 1;
        }
        self.offset = self.offset + utf8_width(c);
        self.index = self.index + 1;
        Some(c)
    }

    /// Reads the next character if the class holds it.
    pub fn consume_if(&mut self, class: &CharClass) -> (r: bool)
        requires
            old(self).wf(),
        ensures
            Reader::scanned(
                *old(self),
                *final(self),
                r,
                if old(self).cursor() < old(self).text().len() && class.holds(
                    old(self).text()[old(self).cursor()],
                ) {
                    (true, old(self).cursor() + 1)
                } else {
                    (false, old(self).cursor())
                },
            ),
    {
        match self.peek() {
            Some(c) => {
                if class.test(c) {
                    self.next();
                    true
                } else {
                    false
                }
            },
            None => false,
        }
    }

    /// Reads the run of characters of the class at the cursor; whether it
    /// was not empty.
    pub fn consume_while(&mut self, class: &CharClass) -> (r: bool)
        requires
            old(self).wf(),
        ensures
            Reader::moved(
                *old(self),
                *final(self),
                span_end(old(self).text(), old(self).cursor(), *class),
            ),
            r == (final(self).cursor() > old(self).cursor()),
    {
        let ghost start = self.cursor();
        proof {
            lemma_span_end(self.text(), start, *class);
        }
        let mut consumed = false;
        while self.consume_if(class)
            invariant
                self.wf(),
                self.text() == old(self).text(),
                start <= self.cursor(),
                span_end(self.text(), self.cursor(), *class) == span_end(
                    self.text(),
                    start,
                    *class,
                ),
                consumed == (self.cursor() > start),
            decreases self.text().len() - self.cursor(),
        {
            consumed = true;
        }
        consumed
    }

    /// Reads `target` if it is the next character.
    pub fn consume_char(&mut self, target: char) -> (r: bool)
        requires
            old(self).wf(),
        ensures
            Reader::scanned(
                *old(self),
                *final(self),
                r,
                if at(old(self).text(), old(self).cursor(), target) {
                    (true, old(self).cursor() + 1)
                } else {
                    (false, old(self).cursor())
                },
            ),
    {
        self.consume_if(&CharClass::Is(target))
    }

    /// Reads the characters of `lit` one by one while they match.
    fn consume_literal(&mut self, lit: &Vec<char>) -> (r: bool)
        requires
            old(self).wf(),
        ensures
            Reader::scanned(
                *old(self),
                *final(self),
                r,
                literal_scan(old(self).text(), old(self).cursor(), lit@),
            ),
    {
        let ghost t = self.text();
        let ghost start = self.cursor();
        let mut k: usize = 0;
        assert(lit@.subrange(0, lit@.len() as int) =~= lit@);
        while k < lit.len()
            invariant
                self.wf(),
                self.text() == t,
                old(self).text() == t,
                start == old(self).cursor(),
                self.cursor() >= start,
                k <= lit.len(),
                literal_scan(t, start, lit@) == literal_scan(
                    t,
                    self.cursor(),
                    lit@.subrange(k as int, lit@.len() as int),
                ),
            decreases lit.len() - k,
        {
            let ghost rest = lit@.subrange(k as int, lit@.len() as int);
            let ghost here = self.cursor();
            assert(rest.drop_first() =~= lit@.subrange(k + 1, lit@.len() as int));
            assert(rest[0] == lit@[k as int]);
            if !self.consume_char(lit[k]) {
                assert(literal_scan(t, here, rest) == (false, here));
                return false;
            }
            assert(literal_scan(t, here, rest) == literal_scan(t, here + 1, rest.drop_first()));
            k += 1;
        }
        assert(lit@.subrange(k as int, lit@.len() as int) =~= Seq::<char>::empty());
        true
    }

    /// Reads the rest of the text; whether it was not empty.
    pub fn consume_all(&mut self) -> (r: bool)
        requires
            old(self).wf(),
        ensures
            Reader::scanned(
                *old(self),
                *final(self),
                r,
                run_scan(old(self).text(), old(self).cursor(), CharClass::All),
            ),
    {
        self.consume_while(&CharClass::All)
    }

    /// Reads a run of the characters of `targets`; whether it was not empty.
    pub fn consume_any(&mut self, targets: &str) -> (r: bool)
        requires
            old(self).wf(),
        ensures
            exists|v: Vec<char>|
                v@ == targets@ && #[trigger] Reader::scanned(
                    *old(self),
                    *final(self),
                    r,
                    run_scan(old(self).text(), old(self).cursor(), CharClass::AnyOf(v)),
                ),
    {
        let set = chars_of(targets);
        let ghost v = set;
        let r = self.consume_while(&CharClass::AnyOf(set));
        assert(Reader::scanned(
            *old(self),
            *self,
            r,
            run_scan(old(self).text(), old(self).cursor(), CharClass::AnyOf(v)),
        ));
        r
    }

    /// Reads a run of characters not in `targets`; whether it was not
    /// empty.
    pub fn consume_until_any(&mut self, targets: &str) -> (r: bool)
        requires
            old(self).wf(),
        ensures
            exists|v: Vec<char>|
                v@ == targets@ && #[trigger] Reader::scanned(
                    *old(self),
                    *final(self),
                    r,
                    run_scan(old(self).text(), old(self).cursor(), CharClass::NoneOf(v)),
                ),
    {
        let set = chars_of(targets);
        let ghost v = set;
        let r = self.consume_while(&CharClass::NoneOf(set));
        assert(Reader::scanned(
            *old(self),
            *self,
            r,
            run_scan(old(self).text(), old(self).cursor(), CharClass::NoneOf(v)),
        ));
        r
    }

    /// Reads a run of characters other than `target`; whether it was not
    /// empty.
    pub fn consume_until_char(&mut self, target: char) -> (r: bool)
        requires
            old(self).wf(),
        ensures
            Reader::scanned(
                *old(self),
                *final(self),
                r,
                run_scan(old(self).text(), old(self).cursor(), CharClass::Not(target)),
            ),
    {
        self.consume_while(&CharClass::Not(target))
    }

    /// Reads a run of decimal digits; whether it was not empty.
    pub fn consume_digits(&mut self) -> (r: bool)
        requires
            old(self).wf(),
        ensures
            Reader::scanned(
                *old(self),
                *final(self),
                r,
                run_scan(old(self).text(), old(self).cursor(), CharClass::Digit),
            ),
    {
        self.consume_while(&CharClass::Digit)
    }

    /// Reads a run of hexadecimal digits; whether it was not empty.
    pub fn consume_digits_hex(&mut self) -> (r: bool)
        requires
            old(self).wf(),
        ensures
            Reader::scanned(
                *old(self),
                *final(self),
                r,
                run_scan(old(self).text(), old(self).cursor(), CharClass::HexDigit),
            ),
    {
        self.consume_while(&CharClass::HexDigit)
    }

    /// Reads a run of XML white space; whether it was not empty.
    pub fn consume_whitespace(&mut self) -> (r: bool)
        requires
            old(self).wf(),
        ensures
            Reader::scanned(
                *old(self),
                *final(self),
                r,
                run_scan(old(self).text(), old(self).cursor(), CharClass::Space),
            ),
    {
        self.consume_while(&CharClass::Space)
    }

    /// Reads a `+` or a `-`, if one is next.
    pub fn consume_sign(&mut self) -> (r: bool)
        requires
            old(self).wf(),
        ensures
            Reader::moved(
                *old(self),
                *final(self),
                sign_end(old(self).text(), old(self).cursor()),
            ),
            r == (final(self).cursor() > old(self).cursor()),
    {
        self.consume_if(&CharClass::Is('+')) || self.consume_if(&CharClass::Is('-'))
    }

    /// Reads one XML character.
    pub fn consume_character(&mut self) -> (r: bool)
        requires
            old(self).wf(),
        ensures
            Reader::scanned(
                *old(self),
                *final(self),
                r,
                if old(self).cursor() < old(self).text().len() && is_xml_char(
                    old(self).text()[old(self).cursor()],
                ) {
                    (true, old(self).cursor() + 1)
                } else {
                    (false, old(self).cursor())
                },
            ),
    {
        self.consume_if(&CharClass::Character)
    }

    /// Reads one XML name start character.
    pub fn consume_name_start_character(&mut self) -> (r: bool)
        requires
            old(self).wf(),
        ensures
            Reader::scanned(
                *old(self),
                *final(self),
                r,
                if old(self).cursor() < old(self).text().len() && is_name_start(
                    old(self).text()[old(self).cursor()],
                ) {
                    (true, old(self).cursor() + 1)
                } else {
                    (false, old(self).cursor())
                },
            ),
    {
        self.consume_if(&CharClass::NameStart)
    }

    /// Reads one XML name character.
    pub fn consume_name_character(&mut self) -> (r: bool)
        requires
            old(self).wf(),
        ensures
            Reader::scanned(
                *old(self),
                *final(self),
                r,
                if old(self).cursor() < old(self).text().len() && is_name_char(
                    old(self).text()[old(self).cursor()],
                ) {
                    (true, old(self).cursor() + 1)
                } else {
                    (false, old(self).cursor())
                },
            ),
    {
        self.consume_if(&CharClass::Name)
    }

    /// Reads an XML name.
    pub fn consume_name(&mut self) -> (r: bool)
        requires
            old(self).wf(),
        ensures
            Reader::scanned(
                *old(self),
                *final(self),
                r,
                name_scan(old(self).text(), old(self).cursor()),
            ),
    {
        if !self.consume_name_start_character() {
            return false;
        }
        self.consume_while(&CharClass::Name);
        true
    }

    /// Reads `=` with optional white space around it; whether the `=` was
    /// there.
    pub fn consume_equality(&mut self) -> (r: bool)
        requires
            old(self).wf(),
        ensures
            Reader::scanned(
                *old(self),
                *final(self),
                r,
                equality_scan(old(self).text(), old(self).cursor()),
            ),
    {
        self.consume_whitespace();
        let ghost a = self.cursor();
        let consumed = self.consume_char('=');
        proof {
            lemma_span_end(self.text(), old(self).cursor(), CharClass::Space);
            if !consumed {
                assert(a < self.text().len() ==> !is_xml_space(self.text()[a]));
                assert(span_end(self.text(), a, CharClass::Space) == a);
            }
        }
        self.consume_whitespace();
        consumed
    }

    /// Reads an XML reference: `&name;`, `&#digits;` or `&#xhexdigits;`.
    pub fn consume_reference(&mut self) -> (r: bool)
        requires
            old(self).wf(),
        ensures
            Reader::scanned(
                *old(self),
                *final(self),
                r,
                reference_scan(old(self).text(), old(self).cursor()),
            ),
    {
        if !self.consume_char('&') {
            return false;
        }
        let body = if self.consume_char('#') {
            if self.consume_char('x') {
                self.consume_digits_hex()
            } else {
                self.consume_digits()
            }
        } else {
            self.consume_name()
        };
        body && self.consume_char(';')
    }

    /// Reads an XML attribute value: a quoted text in which `&` only opens
    /// a reference and `<` does not stand.
    pub fn consume_attribute_value(&mut self) -> (r: bool)
        requires
            old(self).wf(),
        ensures
            Reader::scanned(
                *old(self),
                *final(self),
                r,
                attribute_value_scan(old(self).text(), old(self).cursor()),
            ),
    {
        let q = if self.consume_char('\'') {
            '\''
        } else if self.consume_char('"') {
            '"'
        } else {
            return false;
        };
        let ghost t = self.text();
        let ghost goal = value_body_scan(t, self.cursor(), q);
        loop
            invariant
                self.wf(),
                self.text() == t,
                old(self).text() == t,
                self.cursor() >= old(self).cursor(),
                goal == attribute_value_scan(t, old(self).cursor()),
                value_body_scan(t, self.cursor(), q) == goal,
            decreases t.len() - self.cursor(),
        {
            let ghost k = self.cursor();
            proof {
                self.lemma_wf();
                lemma_span_end(t, k, CharClass::Value(q));
            }
            self.consume_while(&CharClass::Value(q));
            let ghost e = self.cursor();
            match self.peek() {
                Some(c) if c == '&' => {
                    proof {
                        lemma_reference_scan(t, e);
                    }
                    if !self.consume_reference() {
                        return false;
                    }
                },
                _ => {
                    return self.consume_char(q);
                },
            }
        }
    }

    /// Reads an XML attribute: a name, `=` and a value.
    pub fn consume_attribute(&mut self) -> (r: bool)
        requires
            old(self).wf(),
        ensures
            Reader::scanned(
                *old(self),
                *final(self),
                r,
                attribute_scan(old(self).text(), old(self).cursor()),
            ),
    {
        self.consume_name() && self.consume_equality() && self.consume_attribute_value()
    }

    /// Reads the body of a comment; a `--` that would not close it is left
    /// unread. Always true.
    pub fn consume_comment_body(&mut self) -> (r: bool)
        requires
            old(self).wf(),
        ensures
            Reader::moved(
                *old(self),
                *final(self),
                comment_body_end(old(self).text(), old(self).cursor()),
            ),
            r,
    {
        let ghost t = self.text();
        let ghost goal = comment_body_end(t, self.cursor());
        loop
            invariant
                self.wf(),
                self.text() == t,
                old(self).text() == t,
                self.cursor() >= old(self).cursor(),
                goal == comment_body_end(t, old(self).cursor()),
                comment_body_end(t, self.cursor()) == goal,
            decreases t.len() - self.cursor(),
        {
            match self.peek() {
                None => {
                    return true;
                },
                Some(c) => {
                    if c == '-' {
                        let two = self.peek_many(2);
                        if two.len() == 2 && two[1] != '-' && xml_char(two[1]) {
                            self.next();
                        } else {
                            return true;
                        }
                    } else if !self.consume_character() {
                        return true;
                    }
                },
            }
        }
    }

    /// Reads a comment: `<!--`, its body and `-->`.
    pub fn consume_comment(&mut self) -> (r: bool)
        requires
            old(self).wf(),
        ensures
            Reader::scanned(
                *old(self),
                *final(self),
                r,
                comment_scan(old(self).text(), old(self).cursor()),
            ),
    {
        self.consume_literal(&chars_of("<!--")) && {
            self.consume_comment_body();
            self.consume_literal(&chars_of("-->"))
        }
    }

    /// `open`, at least one character other than `>`, then `>`.
    fn consume_bracketed(&mut self, open: &str) -> (r: bool)
        requires
            old(self).wf(),
        ensures
            Reader::scanned(
                *old(self),
                *final(self),
                r,
                bracket_scan(old(self).text(), old(self).cursor(), open@),
            ),
    {
        if !self.consume_literal(&chars_of(open)) {
            return false;
        }
        if !self.consume_until_char('>') {
            return false;
        }
        self.consume_char('>')
    }

    /// Reads a declaration: `<!`, then anything up to and including `>`.
    pub fn consume_declaration(&mut self) -> (r: bool)
        requires
            old(self).wf(),
        ensures
            Reader::scanned(
                *old(self),
                *final(self),
                r,
                bracket_scan(old(self).text(), old(self).cursor(), "<!"@),
            ),
    {
        self.consume_bracketed("<!")
    }

    /// Reads an instruction: `<?`, then anything up to and including `>`.
    pub fn consume_instruction(&mut self) -> (r: bool)
        requires
            old(self).wf(),
        ensures
            Reader::scanned(
                *old(self),
                *final(self),
                r,
                bracket_scan(old(self).text(), old(self).cursor(), "<?"@),
            ),
    {
        self.consume_bracketed("<?")
    }

    /// Reads a tag: `<`, then anything up to and including `>`.
    pub fn consume_tag(&mut self) -> (r: bool)
        requires
            old(self).wf(),
        ensures
            Reader::scanned(
                *old(self),
                *final(self),
                r,
                bracket_scan(old(self).text(), old(self).cursor(), "<"@),
            ),
    {
        self.consume_bracketed("<")
    }

    /// Reads an exponent if an `e` or `E` is next.
    fn consume_exponent(&mut self) -> (r: bool)
        requires
            old(self).wf(),
        ensures
            Reader::scanned(
                *old(self),
                *final(self),
                r,
                exponent_scan(old(self).text(), old(self).cursor()),
            ),
    {
        if !self.consume_if(&CharClass::Is('e')) && !self.consume_if(&CharClass::Is('E')) {
            return true;
        }
        self.consume_sign();
        self.consume_digits()
    }

    /// Reads a number: an optional sign; digits with an optional fraction,
    /// or a fraction alone; an optional exponent.
    pub fn consume_number(&mut self) -> (r: bool)
        requires
            old(self).wf(),
        ensures
            Reader::scanned(
                *old(self),
                *final(self),
                r,
                number_scan(old(self).text(), old(self).cursor()),
            ),
    {
        self.consume_sign();
        let integral = self.consume_digits();
        if self.consume_if(&CharClass::Is('.')) {
            if !self.consume_digits() {
                return false;
            }
        } else if !integral {
            return false;
        }
        self.consume_exponent()
    }

    /// Consumes the production at the cursor; whether it succeeded.
    pub fn consume(&mut self, production: &Production) -> (r: bool)
        requires
            old(self).wf(),
        ensures
            Reader::scanned(
                *old(self),
                *final(self),
                r,
                production.scan(old(self).text(), old(self).cursor()),
            ),
    {
        match production {
            Production::Run(class) => self.consume_while(class),
            Production::Name => self.consume_name(),
            Production::Attribute => self.consume_attribute(),
            Production::Reference => self.consume_reference(),
            Production::Comment => self.consume_comment(),
            Production::Declaration => self.consume_declaration(),
            Production::Instruction => self.consume_instruction(),
            Production::Tag => self.consume_tag(),
            Production::Number => self.consume_number(),
        }
    }

    /// Consumes the production at the cursor, and returns what it spanned,
    /// trimmed, if it succeeded and that is not empty.
    pub fn capture(&mut self, production: &Production) -> (r: Option<String>)
        requires
            old(self).wf(),
        ensures
            Reader::moved(
                *old(self),
                *final(self),
                production.scan(old(self).text(), old(self).cursor()).1,
            ),
            match r {
                Some(v) => captured(
                    old(self).text(),
                    old(self).cursor(),
                    production.scan(old(self).text(), old(self).cursor()),
                ) == Some(v@),
                None => captured(
                    old(self).text(),
                    old(self).cursor(),
                    production.scan(old(self).text(), old(self).cursor()),
                ) is None,
            },
    {
        let start = self.index;
        if !self.consume(production) {
            return None;
        }
        let content = trimmed_range(&self.chars, start, self.index);
        if content.len() == 0 {
            None
        } else {
            Some(string_of(&content))
        }
    }
}

} // verus!
