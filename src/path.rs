//! Path data: the commands of a path's `d` attribute, parsed from text and
//! written back.
use vstd::prelude::*;
use crate::chars::{is_ascii_letter, push_char, push_str};
use crate::error::Error;
use crate::node::joined;
use crate::number::{number_text, number_value, Number};
use crate::reader::{
    at, lemma_span_end, number_scan, span_end, CharClass, Reader, MAX_TEXT,
};
use crate::tag::position_at;

verus! {

/// Whether a command's parameters are absolute coordinates or offsets from
/// the current point.
#[derive(Clone, Copy, Debug, PartialEq, Eq, Structural)]
pub enum Positioning {
    /// Absolute coordinates; written with an upper-case letter.
    Absolute,
    /// Offsets from the current point; written with a lower-case letter.
    Relative,
}

/// A command of path data.
pub enum Command {
    /// Starts a new subpath.
    Move(Positioning, Vec<Number>),
    /// Draws straight lines.
    Line(Positioning, Vec<Number>),
    /// Draws horizontal lines.
    HorizontalLine(Positioning, Vec<Number>),
    /// Draws vertical lines.
    VerticalLine(Positioning, Vec<Number>),
    /// Draws quadratic Bézier curves.
    QuadraticCurve(Positioning, Vec<Number>),
    /// Draws quadratic Bézier curves whose control point is reflected from
    /// the previous one.
    SmoothQuadraticCurve(Positioning, Vec<Number>),
    /// Draws cubic Bézier curves.
    CubicCurve(Positioning, Vec<Number>),
    /// Draws cubic Bézier curves whose first control point is reflected from
    /// the previous one.
    SmoothCubicCurve(Positioning, Vec<Number>),
    /// Draws elliptical arcs.
    EllipticalArc(Positioning, Vec<Number>),
    /// Closes the current subpath.
    Close,
}

/// The letter of a command: its kind, upper case when absolute.
pub open spec fn letter(upper: char, lower: char, p: Positioning) -> char {
    match p {
        Positioning::Absolute => upper,
        Positioning::Relative => lower,
    }
}

/// The views of numbers.
pub open spec fn number_views(v: Seq<Number>) -> Seq<(bool, Seq<u8>, int)> {
    v.map_values(|n: Number| n@)
}

impl View for Command {
    type V = (char, Seq<(bool, Seq<u8>, int)>);

    /// A command is its letter and its parameters; a close is `z`.
    open spec fn view(&self) -> (char, Seq<(bool, Seq<u8>, int)>) {
        match self {
            Command::Move(p, v) => (letter('M', 'm', *p), number_views(v@)),
            Command::Line(p, v) => (letter('L', 'l', *p), number_views(v@)),
            Command::HorizontalLine(p, v) => (letter('H', 'h', *p), number_views(v@)),
            Command::VerticalLine(p, v) => (letter('V', 'v', *p), number_views(v@)),
            Command::QuadraticCurve(p, v) => (letter('Q', 'q', *p), number_views(v@)),
            Command::SmoothQuadraticCurve(p, v) => (letter('T', 't', *p), number_views(v@)),
            Command::CubicCurve(p, v) => (letter('C', 'c', *p), number_views(v@)),
            Command::SmoothCubicCurve(p, v) => (letter('S', 's', *p), number_views(v@)),
            Command::EllipticalArc(p, v) => (letter('A', 'a', *p), number_views(v@)),
            Command::Close => ('z', Seq::empty()),
        }
    }
}

impl Command {
    /// Every parameter is a number in its one form.
    pub open spec fn wf(&self) -> bool {
        forall|i: int| 0 <= i < self@.1.len() ==> crate::number::canonical(#[trigger] self@.1[i])
    }
}

/// The letters of the commands that take parameters.
pub open spec fn is_drawing_letter(c: char) -> bool {
    c == 'M' || c == 'm' || c == 'L' || c == 'l' || c == 'H' || c == 'h' || c == 'V' || c
        == 'v' || c == 'Q' || c == 'q' || c == 'T' || c == 't' || c == 'C' || c == 'c' || c
        == 'S' || c == 's' || c == 'A' || c == 'a'
}

/// Path data: a sequence of commands.
pub struct Data(Vec<Command>);

impl View for Data {
    type V = Seq<(char, Seq<(bool, Seq<u8>, int)>)>;

    closed spec fn view(&self) -> Seq<(char, Seq<(bool, Seq<u8>, int)>)> {
        self.0@.map_values(|c: Command| c@)
    }
}

/// A failure: a message and the index where it arose.
pub type Failure = (Seq<char>, int);

/// A number after optional white space: none where no number stands.
pub open spec fn number_step(s: Seq<char>, i: int) -> Result<
    (Option<(bool, Seq<u8>, int)>, int),
    Failure,
> {
    let a = span_end(s, i, CharClass::Space);
    let scan = number_scan(s, a);
    if !scan.0 {
        Ok((None, scan.1))
    } else {
        Ok((Some(number_value(s, a)), scan.1))
    }
}

/// A flag of an elliptical arc after optional white space: `0` or `1`.
pub open spec fn flag_step(s: Seq<char>, i: int) -> Result<
    (Option<(bool, Seq<u8>, int)>, int),
    Failure,
> {
    let a = span_end(s, i, CharClass::Space);
    if at(s, a, '0') {
        Ok((Some((false, Seq::empty(), 0)), a + 1))
    } else if at(s, a, '1') {
        Ok((Some((false, seq![1u8], 0)), a + 1))
    } else {
        Err(
            (
                "failed to parse a flag in an elliptical arc"@,
                if a < s.len() {
                    a + 1
                } else {
                    a
                },
            ),
        )
    }
}

/// The parameter at this position, counted from 1: a flag or a number.
pub open spec fn value_step(s: Seq<char>, i: int, arc: bool, index: nat) -> Result<
    (Option<(bool, Seq<u8>, int)>, int),
    Failure,
> {
    if arc && is_flag_index(index) {
        flag_step(s, i)
    } else {
        number_step(s, i)
    }
}

/// Where optional white space and at most one comma after a parameter end.
pub open spec fn separator_end(s: Seq<char>, j: int) -> int {
    let k = span_end(s, j, CharClass::Space);
    if at(s, k, ',') {
        k + 1
    } else {
        k
    }
}

/// Whether the parameter at this position, counted from 1, of an
/// elliptical arc is a flag.
pub open spec fn is_flag_index(index: nat) -> bool {
    index % 7 == 4 || index % 7 == 5
}

/// The parameters from `i` on, up to the first place where none stands.
/// For an elliptical arc, the fourth and fifth of each seven are flags.
pub open spec fn parameters_scan(s: Seq<char>, i: int, arc: bool, index: nat) -> Result<
    (Seq<(bool, Seq<u8>, int)>, int),
    Failure,
>
    decreases s.len() - i,
{
    match value_step(s, i, arc, index) {
        Err(e) => Err(e),
        Ok((None, j)) => Ok((Seq::empty(), j)),
        Ok((Some(n), j)) => {
            let l = separator_end(s, j);
            if i < l <= s.len() {
                match parameters_scan(s, l, arc, index + 1) {
                    Ok((rest, f)) => Ok((seq![n] + rest, f)),
                    Err(e) => Err(e),
                }
            } else {
                Err((Seq::empty(), l))
            }
        },
    }
}

/// The command at `i`, if any is left, and where it ends.
pub open spec fn command_step(s: Seq<char>, i: int) -> Result<
    Option<((char, Seq<(bool, Seq<u8>, int)>), int)>,
    Failure,
> {
    if i >= s.len() {
        Ok(None)
    } else if !is_ascii_letter(s[i]) {
        Err(("expected a path command"@, i + 1))
    } else {
        let c = s[i];
        let j = span_end(s, i + 1, CharClass::Space);
        if c == 'Z' || c == 'z' {
            Ok(Some((('z', Seq::empty()), j)))
        } else if is_drawing_letter(c) {
            match parameters_scan(s, j, c == 'A' || c == 'a', 1) {
                Ok((ps, f)) => Ok(Some(((c, ps), f))),
                Err(e) => Err(e),
            }
        } else {
            Err(("found an unknown path command '"@ + seq![c] + "'"@, j))
        }
    }
}

/// The commands from `i` on, each after optional white space.
pub open spec fn data_scan(s: Seq<char>, i: int) -> Result<
    Seq<(char, Seq<(bool, Seq<u8>, int)>)>,
    Failure,
>
    decreases s.len() - i,
{
    let a = span_end(s, i, CharClass::Space);
    match command_step(s, a) {
        Err(e) => Err(e),
        Ok(None) => Ok(Seq::empty()),
        Ok(Some((c, j))) => if i < j <= s.len() {
            match data_scan(s, j) {
                Ok(rest) => Ok(seq![c] + rest),
                Err(e) => Err(e),
            }
        } else {
            Err((Seq::empty(), j))
        },
    }
}

/// An error that stands for a failure in `s`.
pub open spec fn error_is(s: Seq<char>, e: Error, f: Failure) -> bool {
    &&& e.message@ == f.0
    &&& (e.line as nat, e.column as nat) == position_at(s, f.1)
}

/// Parameters written out: each number in plain decimal form, with commas
/// between.
pub open spec fn parameters_text(ps: Seq<(bool, Seq<u8>, int)>) -> Seq<char> {
    joined(ps.map_values(|n: (bool, Seq<u8>, int)| number_text(n)), ',')
}

/// A command written out: its letter, then its parameters.
pub open spec fn command_text(c: (char, Seq<(bool, Seq<u8>, int)>)) -> Seq<char> {
    seq![c.0] + parameters_text(c.1)
}

/// Path data written out: its commands with single spaces between.
pub open spec fn data_text(d: Seq<(char, Seq<(bool, Seq<u8>, int)>)>) -> Seq<char> {
    joined(d.map_values(|c: (char, Seq<(bool, Seq<u8>, int)>)| command_text(c)), ' ')
}

proof fn lemma_parameters_step(s: Seq<char>, i: int, arc: bool, index: nat)
    ensures
        parameters_scan(s, i, arc, index) == match value_step(s, i, arc, index) {
            Err(e) => Err(e),
            Ok((None, j)) => Ok((Seq::empty(), j)),
            Ok((Some(n), j)) => {
                let l = separator_end(s, j);
                if i < l <= s.len() {
                    match parameters_scan(s, l, arc, index + 1) {
                        Ok((rest, f)) => Ok((seq![n] + rest, f)),
                        Err(e) => Err(e),
                    }
                } else {
                    Err((Seq::empty(), l))
                }
            },
        },
{
}

proof fn lemma_data_step(s: Seq<char>, i: int)
    ensures
        data_scan(s, i) == match command_step(s, span_end(s, i, CharClass::Space)) {
            Err(e) => Err(e),
            Ok(None) => Ok(Seq::empty()),
            Ok(Some((c, j))) => if i < j <= s.len() {
                match data_scan(s, j) {
                    Ok(rest) => Ok(seq![c] + rest),
                    Err(e) => Err(e),
                }
            } else {
                Err((Seq::empty(), j))
            },
        },
{
}

/// Whether a parameter is a flag of an elliptical arc: zero or one.
pub open spec fn is_flag(v: (bool, Seq<u8>, int)) -> bool {
    v == (false, Seq::<u8>::empty(), 0int) || v == (false, seq![1u8], 0int)
}

/// Whether a character starts a command written out.
pub open spec fn is_command_start(c: char) -> bool {
    is_drawing_letter(c) || c == 'z'
}

/// Whether the parameters of an elliptical arc hold flags where flags
/// stand, and no group is cut off just before a flag; true of the other
/// commands.
pub open spec fn arc_flags_in_place(c: (char, Seq<(bool, Seq<u8>, int)>)) -> bool {
    (c.0 == 'A' || c.0 == 'a') ==> {
        &&& forall|k: int|
            0 <= k < c.1.len() && is_flag_index((k + 1) as nat) ==> is_flag(#[trigger] c.1[k])
        &&& !is_flag_index((c.1.len() + 1) as nat)
    }
}

/// Whether a command reads back as itself once written out: a known
/// letter, a close without parameters, numbers in their one form, and for
/// an elliptical arc flags in place.
pub open spec fn writable(c: (char, Seq<(bool, Seq<u8>, int)>)) -> bool {
    &&& is_drawing_letter(c.0) || (c.0 == 'z' && c.1.len() == 0)
    &&& forall|k: int| 0 <= k < c.1.len() ==> crate::number::canonical(#[trigger] c.1[k])
    &&& arc_flags_in_place(c)
}

/// Whether a command ends at `k`: at the end of the text, or before a
/// space and the letter of the next command.
pub open spec fn ends_command(s: Seq<char>, k: int) -> bool {
    k == s.len() || (k + 1 < s.len() && s[k] == ' ' && is_command_start(s[k + 1]))
}

/// Where the next command starts after one that ends at `k`.
pub open spec fn after(s: Seq<char>, k: int) -> int {
    if k == s.len() {
        k
    } else {
        k + 1
    }
}

proof fn lemma_joined_front(parts: Seq<Seq<char>>, sep: char)
    requires
        parts.len() >= 1,
    ensures
        joined(parts, sep) == if parts.len() == 1 {
            parts[0]
        } else {
            parts[0] + seq![sep] + joined(parts.drop_first(), sep)
        },
    decreases parts.len(),
{
    if parts.len() >= 3 {
        let dl = parts.drop_last();
        lemma_joined_front(dl, sep);
        assert(parts.drop_first().drop_last() =~= dl.drop_first());
        assert(parts.drop_first().last() == parts.last());
        assert(dl[0] == parts[0]);
        assert(joined(parts.drop_first(), sep) == joined(dl.drop_first(), sep).push(sep)
            + parts.last());
        assert(joined(parts, sep) =~= parts[0] + seq![sep] + joined(parts.drop_first(), sep));
    } else if parts.len() == 2 {
        assert(parts.drop_last().len() == 1);
        assert(parts.drop_first().len() == 1);
        assert(joined(parts.drop_last(), sep) == parts.drop_last()[0]);
        assert(joined(parts.drop_first(), sep) == parts.drop_first()[0]);
        assert(parts.drop_last()[0] == parts[0]);
        assert(parts.drop_first()[0] == parts[1]);
        assert(joined(parts, sep) =~= parts[0] + seq![sep] + joined(parts.drop_first(), sep));
    }
}

proof fn lemma_number_text_first(v: (bool, Seq<u8>, int))
    requires
        crate::number::canonical(v),
    ensures
        number_text(v).len() > 0,
        number_text(v)[0] == '-' || crate::chars::is_digit(number_text(v)[0]),
        !crate::number::continues_number(','),
        !crate::number::continues_number(' '),
{
    let ds = crate::number::digit_text(v.1);
    if v.1.len() > 0 {
        assert(v.1[0] < 10);
        assert(ds[0] == crate::chars::digit_char(v.1[0] as nat));
    }
    if v.0 {
        assert(number_text(v)[0] == '-');
    } else if v.1.len() == 0 {
        assert(number_text(v)[0] == '0');
    } else if v.2 >= 0 {
        assert(number_text(v)[0] == ds[0]);
    } else if -v.2 < ds.len() {
        assert(number_text(v)[0] == ds[0]);
    } else {
        assert(number_text(v)[0] == '0');
    }
}

proof fn lemma_no_number_at(s: Seq<char>, l: int)
    requires
        0 <= l <= s.len(),
        l == s.len() || is_command_start(s[l]),
    ensures
        number_scan(s, l) == (false, l),
        span_end(s, l, CharClass::Space) == l,
{
    assert(crate::reader::sign_end(s, l) == l);
    assert(span_end(s, l, CharClass::Digit) == l);
}

proof fn lemma_parameters_stop(s: Seq<char>, l: int, arc: bool, index: nat)
    requires
        0 <= l <= s.len(),
        l == s.len() || is_command_start(s[l]),
        !(arc && is_flag_index(index)),
    ensures
        parameters_scan(s, l, arc, index) == Ok::<_, Failure>((
            Seq::<(bool, Seq<u8>, int)>::empty(),
            l,
        )),
{
    lemma_no_number_at(s, l);
    lemma_parameters_step(s, l, arc, index);
}

#[verifier::rlimit(100)]
proof fn lemma_parameters_reads_back(
    ps: Seq<(bool, Seq<u8>, int)>,
    s: Seq<char>,
    i: int,
    arc: bool,
    index: nat,
)
    requires
        ps.len() > 0,
        forall|k: int| 0 <= k < ps.len() ==> crate::number::canonical(#[trigger] ps[k]),
        forall|k: int|
            0 <= k < ps.len() && arc && is_flag_index((index + k) as nat) ==> is_flag(
                #[trigger] ps[k],
            ),
        !(arc && is_flag_index((index + ps.len()) as nat)),
        0 <= i,
        i + parameters_text(ps).len() <= s.len(),
        s.subrange(i, i + parameters_text(ps).len()) == parameters_text(ps),
        ends_command(s, i + parameters_text(ps).len()),
    ensures
        parameters_scan(s, i, arc, index) == Ok::<_, Failure>((
            ps,
            after(s, i + parameters_text(ps).len()),
        )),
    decreases ps.len(),
{
    let parts = ps.map_values(|n: (bool, Seq<u8>, int)| number_text(n));
    let tail = ps.drop_first();
    lemma_joined_front(parts, ',');
    assert(parts.drop_first() =~= tail.map_values(|n: (bool, Seq<u8>, int)| number_text(n)));
    let first = ps[0];
    let t0 = number_text(first);
    assert(parts[0] == t0);
    let total = parameters_text(ps);
    let end = i + total.len();
    let j = i + t0.len();
    assert forall|q: int| i <= q < end implies #[trigger] s[q] == total[q - i] by {
        assert(s.subrange(i, end)[q - i] == s[q]);
    }
    lemma_number_text_first(first);
    if ps.len() == 1 {
        assert(total == t0);
    } else {
        assert(total == t0 + seq![','] + parameters_text(tail));
    }
    assert(s[i] == total[0]);
    assert(total[0] == t0[0]);
    assert(s.subrange(i, j) =~= t0);
    lemma_parameters_step(s, i, arc, index);
    if ps.len() > 1 {
        assert(s[j] == total[t0.len() as int]);
        assert(s[j] == ',');
    }
    let flag = arc && is_flag_index(index);
    if flag {
        assert(is_flag(first));
        if first == (false, Seq::<u8>::empty(), 0int) {
            assert(number_text(first) =~= seq!['0']);
        } else {
            assert(crate::number::digit_text(seq![1u8]) =~= seq!['1']);
            assert(number_text(first) =~= seq!['1']);
        }
        assert(span_end(s, i, CharClass::Space) == i);
        assert(flag_step(s, i) == Ok::<_, Failure>((Some(first), j)));
    } else {
        assert(span_end(s, i, CharClass::Space) == i);
        if j < s.len() {
            assert(s[j] == ',' || s[j] == ' ');
        }
        crate::number::lemma_number_text_reads_back(first, s, i);
        assert(number_step(s, i) == Ok::<_, Failure>((Some(first), j)));
    }
    if ps.len() == 1 {
        assert(j == end);
        let l = after(s, j);
        if j < s.len() {
            assert(span_end(s, j + 1, CharClass::Space) == j + 1);
            assert(span_end(s, j, CharClass::Space) == j + 1);
        }
        assert(separator_end(s, j) == l);
        lemma_parameters_stop(s, l, arc, index + 1);
        assert(seq![first] + Seq::<(bool, Seq<u8>, int)>::empty() =~= ps);
    } else {
        assert(span_end(s, j, CharClass::Space) == j);
        assert(separator_end(s, j) == j + 1);
        let rest = parameters_text(tail);
        assert(total =~= t0 + seq![','] + rest);
        assert(s.subrange(j + 1, j + 1 + rest.len()) =~= rest);
        assert forall|k: int|
            0 <= k < tail.len() && arc && is_flag_index((index + 1 + k) as nat) implies is_flag(
            #[trigger] tail[k],
        ) by {
            assert(tail[k] == ps[k + 1]);
        }
        lemma_parameters_reads_back(tail, s, j + 1, arc, index + 1);
        assert(seq![first] + tail =~= ps);
    }
}

proof fn lemma_command_reads_back(c: (char, Seq<(bool, Seq<u8>, int)>), s: Seq<char>, i: int)
    requires
        writable(c),
        0 <= i,
        i + command_text(c).len() <= s.len(),
        s.subrange(i, i + command_text(c).len()) == command_text(c),
        ends_command(s, i + command_text(c).len()),
    ensures
        command_step(s, i) == Ok::<_, Failure>(
            Some((c, after(s, i + command_text(c).len()))),
        ),
{
    let t = command_text(c);
    let end = i + t.len();
    assert forall|q: int| i <= q < end implies #[trigger] s[q] == t[q - i] by {
        assert(s.subrange(i, end)[q - i] == s[q]);
    }
    assert(s[i] == s.subrange(i, end)[0]);
    assert(s[i] == c.0);
    let arc = c.0 == 'A' || c.0 == 'a';
    if c.1.len() == 0 {
        assert(c.1.map_values(|n: (bool, Seq<u8>, int)| number_text(n)) =~= Seq::<
            Seq<char>,
        >::empty());
        assert(t.len() == 1);
        if end < s.len() {
            assert(span_end(s, end + 1, CharClass::Space) == end + 1);
        }
        assert(span_end(s, i + 1, CharClass::Space) == after(s, end));
        if c.0 != 'z' {
            lemma_parameters_stop(s, after(s, end), arc, 1);
        }
        assert(c.1 =~= Seq::<(bool, Seq<u8>, int)>::empty());
    } else {
        let rest = parameters_text(c.1);
        assert(t =~= seq![c.0] + rest);
        assert(s.subrange(i + 1, end) =~= rest);
        let parts = c.1.map_values(|n: (bool, Seq<u8>, int)| number_text(n));
        lemma_joined_front(parts, ',');
        lemma_number_text_first(c.1[0]);
        assert(rest[0] == number_text(c.1[0])[0]);
        assert(s[i + 1] == rest[0]);
        assert(span_end(s, i + 1, CharClass::Space) == i + 1);
        assert forall|k: int|
            0 <= k < c.1.len() && arc && is_flag_index((1 + k) as nat) implies is_flag(
            #[trigger] c.1[k],
        ) by {
            assert(((1 + k) as nat) == ((k + 1) as nat));
        }
        lemma_parameters_reads_back(c.1, s, i + 1, arc, 1);
    }
}

#[verifier::rlimit(100)]
proof fn lemma_data_reads_back(d: Seq<(char, Seq<(bool, Seq<u8>, int)>)>, s: Seq<char>, i: int)
    requires
        forall|k: int| 0 <= k < d.len() ==> writable(#[trigger] d[k]),
        0 <= i <= s.len(),
        s.subrange(i, s.len() as int) == data_text(d),
    ensures
        data_scan(s, i) == Ok::<_, Failure>(d),
    decreases d.len(),
{
    lemma_data_step(s, i);
    if d.len() == 0 {
        assert(d.map_values(|c: (char, Seq<(bool, Seq<u8>, int)>)| command_text(c)) =~= Seq::<
            Seq<char>,
        >::empty());
        assert(i == s.len());
        assert(d =~= Seq::<(char, Seq<(bool, Seq<u8>, int)>)>::empty());
    } else {
        let parts = d.map_values(|c: (char, Seq<(bool, Seq<u8>, int)>)| command_text(c));
        let tail = d.drop_first();
        lemma_joined_front(parts, ' ');
        assert(parts.drop_first() =~= tail.map_values(
            |c: (char, Seq<(bool, Seq<u8>, int)>)| command_text(c),
        ));
        let t0 = command_text(d[0]);
        assert(parts[0] == t0);
        let total = data_text(d);
        let end = i + t0.len();
        assert forall|q: int| i <= q < s.len() implies #[trigger] s[q] == total[q - i] by {
            assert(s.subrange(i, s.len() as int)[q - i] == s[q]);
        }
        if d.len() == 1 {
            assert(total == t0);
        } else {
            assert(total == t0 + seq![' '] + data_text(tail));
        }
        assert(s.subrange(i, end) =~= t0);
        assert(s[i] == t0[0]);
        assert(t0[0] == d[0].0);
        assert(span_end(s, i, CharClass::Space) == i);
        if d.len() > 1 {
            let rest = data_text(tail);
            assert(total =~= t0 + seq![' '] + rest);
            assert(tail[0] == d[1]);
            let parts_tail = tail.map_values(
                |c: (char, Seq<(bool, Seq<u8>, int)>)| command_text(c),
            );
            lemma_joined_front(parts_tail, ' ');
            assert(parts_tail[0] == command_text(tail[0]));
            assert(rest[0] == command_text(tail[0])[0]);
            assert(s[end] == ' ');
            assert(s[end + 1] == rest[0]);
            assert(ends_command(s, end));
            lemma_command_reads_back(d[0], s, i);
            assert(s.subrange(end + 1, s.len() as int) =~= rest);
            assert forall|k: int| 0 <= k < tail.len() implies writable(#[trigger] tail[k]) by {
                assert(tail[k] == d[k + 1]);
            }
            lemma_data_reads_back(tail, s, end + 1);
        } else {
            assert(total == t0);
            assert(end == s.len());
            lemma_command_reads_back(d[0], s, i);
            assert(tail =~= Seq::<(char, Seq<(bool, Seq<u8>, int)>)>::empty());
            lemma_data_step(s, end);
            assert(data_scan(s, end) == Ok::<_, Failure>(tail));
        }
        assert(seq![d[0]] + tail =~= d);
    }
}

/// Path data written out parses back as the same commands, when each
/// command can be written out: see `writable`.
pub proof fn lemma_data_round_trip(d: Seq<(char, Seq<(bool, Seq<u8>, int)>)>)
    requires
        forall|k: int| 0 <= k < d.len() ==> writable(#[trigger] d[k]),
    ensures
        data_scan(data_text(d), 0) == Ok::<_, Failure>(d),
{
    let s = data_text(d);
    assert(s.subrange(0, s.len() as int) =~= s);
    lemma_data_reads_back(d, s, 0);
}

pub proof fn lemma_number_scan(s: Seq<char>, i: int)
    requires
        0 <= i <= s.len(),
    ensures
        i <= number_scan(s, i).1 <= s.len(),
        number_scan(s, i).0 ==> number_scan(s, i).1 > i,
{
    let j = crate::reader::sign_end(s, i);
    lemma_span_end(s, j, CharClass::Digit);
    let k = span_end(s, j, CharClass::Digit);
    if at(s, k, '.') {
        lemma_span_end(s, k + 1, CharClass::Digit);
    }
    let m = if at(s, k, '.') {
        span_end(s, k + 1, CharClass::Digit)
    } else {
        k
    };
    if at(s, m, 'e') || at(s, m, 'E') {
        let n = crate::reader::sign_end(s, m + 1);
        lemma_span_end(s, n, CharClass::Digit);
    }
}

impl Data {
    /// Every command is well formed.
    pub open spec fn wf(&self) -> bool {
        forall|i: int|
            0 <= i < self@.len() ==> forall|k: int|
                0 <= k < (#[trigger] self@[i]).1.len() ==> crate::number::canonical(
                    #[trigger] self@[i].1[k],
                )
    }

    /// No commands.
    pub fn new() -> (r: Data)
        ensures
            r@.len() == 0,
            r.wf(),
    {
        Data(Vec::new())
    }

    /// Parses path data.
    pub fn parse(content: &str) -> (r: Result<Data, Error>)
        requires
            content@.len() <= MAX_TEXT,
        ensures
            match r {
                Ok(d) => data_scan(content@, 0) == Ok::<_, Failure>(d@) && d.wf(),
                Err(e) => data_scan(content@, 0) is Err && error_is(
                    content@,
                    e,
                    data_scan(content@, 0)->Err_0,
                ),
            },
    {
        let mut parser = Parser { reader: Reader::new(content) };
        parser.process()
    }

    /// The commands, taken out.
    pub fn into_commands(self) -> (r: Vec<Command>)
        ensures
            r@.map_values(|c: Command| c@) == self@,
    {
        self.0
    }

    /// The commands.
    pub fn iter(&self) -> (r: &Vec<Command>)
        ensures
            r@.map_values(|c: Command| c@) == self@,
    {
        &self.0
    }
}

/// Reads parameters from the start of `content`, up to the first place
/// where no number stands.
pub fn read_parameters(content: &str) -> (r: Result<Vec<Number>, Error>)
    requires
        content@.len() <= MAX_TEXT,
    ensures
        match (r, parameters_scan(content@, 0, false, 1)) {
            (Ok(v), Ok((ps, _))) => number_views(v@) == ps,
            (Err(e), Err(f)) => error_is(content@, e, f),
            _ => false,
        },
{
    let mut parser = Parser { reader: Reader::new(content) };
    parser.read_parameters(false)
}

/// Reads the parameters of elliptical arcs from the start of `content`: the
/// fourth and fifth of each seven are flags.
pub fn read_parameters_elliptical_arc(content: &str) -> (r: Result<Vec<Number>, Error>)
    requires
        content@.len() <= MAX_TEXT,
    ensures
        match (r, parameters_scan(content@, 0, true, 1)) {
            (Ok(v), Ok((ps, _))) => number_views(v@) == ps,
            (Err(e), Err(f)) => error_is(content@, e, f),
            _ => false,
        },
{
    let mut parser = Parser { reader: Reader::new(content) };
    parser.read_parameters(true)
}

/// Reads a number after optional white space at the start of `content`, if
/// one stands there.
pub fn read_number(content: &str) -> (r: Result<Option<Number>, Error>)
    requires
        content@.len() <= MAX_TEXT,
    ensures
        match (r, number_step(content@, 0)) {
            (Ok(None), Ok((None, _))) => true,
            (Ok(Some(n)), Ok((Some(v), _))) => n@ == v && n.wf(),
            (Err(e), Err(f)) => error_is(content@, e, f),
            _ => false,
        },
{
    let mut parser = Parser { reader: Reader::new(content) };
    parser.read_number()
}

struct Parser {
    reader: Reader,
}

impl Parser {
    fn raise(&self, message: String) -> (r: Error)
        requires
            self.reader.wf(),
        ensures
            error_is(self.reader.text(), r, (message@, self.reader.cursor())),
    {
        Error::new(self.reader.position(), message)
    }

    fn process(&mut self) -> (r: Result<Data, Error>)
        requires
            old(self).reader.wf(),
            old(self).reader.cursor() == 0,
        ensures
            match r {
                Ok(d) => data_scan(old(self).reader.text(), 0) == Ok::<_, Failure>(d@) && d.wf(),
                Err(e) => data_scan(old(self).reader.text(), 0) is Err && error_is(
                    old(self).reader.text(),
                    e,
                    data_scan(old(self).reader.text(), 0)->Err_0,
                ),
            },
    {
        let ghost s = self.reader.text();
        let mut commands: Vec<Command> = Vec::new();
        loop
            invariant
                self.reader.wf(),
                self.reader.text() == s,
                old(self).reader.text() == s,
                forall|i: int|
                    0 <= i < commands@.len() ==> (#[trigger] commands@[i]).wf(),
                data_scan(s, 0) == match data_scan(s, self.reader.cursor()) {
                    Ok(rest) => Ok::<_, Failure>(commands@.map_values(|c: Command| c@) + rest),
                    Err(e) => Err(e),
                },
            decreases s.len() - self.reader.cursor(),
        {
            let ghost i = self.reader.cursor();
            proof {
                self.reader.lemma_wf();
                lemma_span_end(s, i, CharClass::Space);
                lemma_data_step(s, i);
            }
            self.reader.consume_whitespace();
            match self.read_command() {
                Err(e) => {
                    return Err(e);
                },
                Ok(None) => {
                    assert(commands@.map_values(|c: Command| c@) + Seq::empty() =~= commands@.map_values(
                        |c: Command| c@,
                    ));
                    let data = Data(commands);
                    assert(data@ == commands@.map_values(|c: Command| c@));
                    return Ok(data);
                },
                Ok(Some(command)) => {
                    let ghost before = commands@.map_values(|c: Command| c@);
                    commands.push(command);
                    proof {
                        self.reader.lemma_wf();
                        assert(i < self.reader.cursor() <= s.len());
                        assert(commands@.map_values(|c: Command| c@) =~= before.push(command@));
                        let rest = data_scan(s, self.reader.cursor());
                        if rest is Ok {
                            assert(before + (seq![command@] + rest->Ok_0) =~= before.push(command@)
                                + rest->Ok_0);
                        }
                    }
                },
            }
        }
    }

    /// Reads a command and its parameters.
    fn read_command(&mut self) -> (r: Result<Option<Command>, Error>)
        requires
            old(self).reader.wf(),
        ensures
            final(self).reader.wf(),
            final(self).reader.text() == old(self).reader.text(),
            match (r, command_step(old(self).reader.text(), old(self).reader.cursor())) {
                (Ok(None), Ok(None)) => true,
                (Ok(Some(c)), Ok(Some((v, j)))) => c@ == v && c.wf() && final(self).reader.cursor()
                    == j && j > old(self).reader.cursor(),
                (Err(e), Err(f)) => error_is(old(self).reader.text(), e, f),
                _ => false,
            },
    {
        let ghost s = self.reader.text();
        let ghost i = self.reader.cursor();
        proof {
            self.reader.lemma_wf();
        }
        let name = match self.reader.next() {
            None => {
                return Ok(None);
            },
            Some(c) => c,
        };
        if !(('a' <= name && name <= 'z') || ('A' <= name && name <= 'Z')) {
            return Err(self.raise("expected a path command".to_owned()));
        }
        proof {
            self.reader.lemma_wf();
            lemma_span_end(s, i + 1, CharClass::Space);
        }
        self.reader.consume_whitespace();
        if name == 'Z' || name == 'z' {
            return Ok(Some(Command::Close));
        }
        let arc = name == 'A' || name == 'a';
        let known = name == 'M' || name == 'm' || name == 'L' || name == 'l' || name == 'H' || name
            == 'h' || name == 'V' || name == 'v' || name == 'Q' || name == 'q' || name == 'T'
            || name == 't' || name == 'C' || name == 'c' || name == 'S' || name == 's' || arc;
        if !known {
            let mut message = String::new();
            push_str(&mut message, "found an unknown path command '");
            push_char(&mut message, name);
            push_str(&mut message, "'");
            assert(message@ =~= "found an unknown path command '"@ + seq![name] + "'"@);
            return Err(self.raise(message));
        }
        let parameters = match self.read_parameters(arc) {
            Ok(parameters) => parameters,
            Err(e) => {
                return Err(e);
            },
        };
        let command = match name {
            'M' => Command::Move(Positioning::Absolute, parameters),
            'm' => Command::Move(Positioning::Relative, parameters),
            'L' => Command::Line(Positioning::Absolute, parameters),
            'l' => Command::Line(Positioning::Relative, parameters),
            'H' => Command::HorizontalLine(Positioning::Absolute, parameters),
            'h' => Command::HorizontalLine(Positioning::Relative, parameters),
            'V' => Command::VerticalLine(Positioning::Absolute, parameters),
            'v' => Command::VerticalLine(Positioning::Relative, parameters),
            'Q' => Command::QuadraticCurve(Positioning::Absolute, parameters),
            'q' => Command::QuadraticCurve(Positioning::Relative, parameters),
            'T' => Command::SmoothQuadraticCurve(Positioning::Absolute, parameters),
            't' => Command::SmoothQuadraticCurve(Positioning::Relative, parameters),
            'C' => Command::CubicCurve(Positioning::Absolute, parameters),
            'c' => Command::CubicCurve(Positioning::Relative, parameters),
            'S' => Command::SmoothCubicCurve(Positioning::Absolute, parameters),
            's' => Command::SmoothCubicCurve(Positioning::Relative, parameters),
            'A' => Command::EllipticalArc(Positioning::Absolute, parameters),
            _ => Command::EllipticalArc(Positioning::Relative, parameters),
        };
        Ok(Some(command))
    }

    /// Reads parameters up to the first place where none stands.
    #[verifier::rlimit(40)]
    fn read_parameters(&mut self, arc: bool) -> (r: Result<Vec<Number>, Error>)
        requires
            old(self).reader.wf(),
        ensures
            final(self).reader.wf(),
            final(self).reader.text() == old(self).reader.text(),
            final(self).reader.cursor() >= old(self).reader.cursor(),
            match (r, parameters_scan(old(self).reader.text(), old(self).reader.cursor(), arc, 1)) {
                (Ok(v), Ok((ps, j))) => number_views(v@) == ps && final(self).reader.cursor() == j
                    && forall|k: int| 0 <= k < v@.len() ==> (#[trigger] v@[k]).wf(),
                (Err(e), Err(f)) => error_is(old(self).reader.text(), e, f),
                _ => false,
            },
    {
        let ghost s = self.reader.text();
        let ghost start = self.reader.cursor();
        let mut parameters: Vec<Number> = Vec::new();
        let mut index: u64 = 1;
        loop
            invariant
                self.reader.wf(),
                self.reader.text() == s,
                old(self).reader.text() == s,
                start == old(self).reader.cursor(),
                self.reader.cursor() >= start,
                index == parameters@.len() + 1,
                index <= self.reader.cursor() - start + 1,
                forall|k: int| 0 <= k < parameters@.len() ==> (#[trigger] parameters@[k]).wf(),
                parameters_scan(s, start, arc, 1) == match parameters_scan(
                    s,
                    self.reader.cursor(),
                    arc,
                    index as nat,
                ) {
                    Ok((rest, f)) => Ok::<_, Failure>((number_views(parameters@) + rest, f)),
                    Err(e) => Err(e),
                },
            decreases s.len() - self.reader.cursor(),
        {
            let ghost i = self.reader.cursor();
            proof {
                self.reader.lemma_wf();
                lemma_parameters_step(s, i, arc, index as nat);
            }
            match self.read_value(arc, index) {
                Err(e) => {
                    return Err(e);
                },
                Ok(None) => {
                    assert(number_views(parameters@) + Seq::empty() =~= number_views(parameters@));
                    return Ok(parameters);
                },
                Ok(Some(number)) => {
                    let ghost before = number_views(parameters@);
                    let ghost j = self.reader.cursor();
                    proof {
                        self.reader.lemma_wf();
                        lemma_span_end(s, j, CharClass::Space);
                    }
                    self.reader.consume_whitespace();
                    self.reader.consume_char(',');
                    parameters.push(number);
                    index += 1;
                    proof {
                        assert(number_views(parameters@) =~= before.push(number@));
                        let rest = parameters_scan(s, self.reader.cursor(), arc, index as nat);
                        if rest is Ok {
                            assert(before + (seq![number@] + rest->Ok_0.0) =~= before.push(number@)
                                + rest->Ok_0.0);
                        }
                    }
                },
            }
        }
    }

    /// Reads the parameter at this position, counted from 1.
    fn read_value(&mut self, arc: bool, index: u64) -> (r: Result<Option<Number>, Error>)
        requires
            old(self).reader.wf(),
        ensures
            final(self).reader.wf(),
            final(self).reader.text() == old(self).reader.text(),
            final(self).reader.cursor() >= old(self).reader.cursor(),
            match (r, value_step(old(self).reader.text(), old(self).reader.cursor(), arc, index as nat)) {
                (Ok(None), Ok((None, j))) => final(self).reader.cursor() == j,
                (Ok(Some(n)), Ok((Some(v), j))) => n@ == v && n.wf() && final(self).reader.cursor()
                    == j && j > old(self).reader.cursor(),
                (Err(e), Err(f)) => error_is(old(self).reader.text(), e, f),
                _ => false,
            },
    {
        if arc && (index % 7 == 4 || index % 7 == 5) {
            self.read_flag()
        } else {
            self.read_number()
        }
    }

    /// Reads a flag of an elliptical arc.
    fn read_flag(&mut self) -> (r: Result<Option<Number>, Error>)
        requires
            old(self).reader.wf(),
        ensures
            final(self).reader.wf(),
            final(self).reader.text() == old(self).reader.text(),
            final(self).reader.cursor() >= old(self).reader.cursor(),
            match (r, flag_step(old(self).reader.text(), old(self).reader.cursor())) {
                (Ok(None), Ok((None, j))) => final(self).reader.cursor() == j,
                (Ok(Some(n)), Ok((Some(v), j))) => n@ == v && n.wf() && final(self).reader.cursor()
                    == j && j > old(self).reader.cursor(),
                (Err(e), Err(f)) => error_is(old(self).reader.text(), e, f),
                _ => false,
            },
    {
        let ghost s = self.reader.text();
        proof {
            self.reader.lemma_wf();
            lemma_span_end(s, self.reader.cursor(), CharClass::Space);
        }
        self.reader.consume_whitespace();
        proof {
            self.reader.lemma_wf();
        }
        match self.reader.next() {
            Some(c) if c == '0' => Ok(Some(Number::zero())),
            Some(c) if c == '1' => Ok(Some(Number::one())),
            _ => Err(self.raise("failed to parse a flag in an elliptical arc".to_owned())),
        }
    }

    /// Reads a number after optional white space, if one stands there.
    fn read_number(&mut self) -> (r: Result<Option<Number>, Error>)
        requires
            old(self).reader.wf(),
        ensures
            final(self).reader.wf(),
            final(self).reader.text() == old(self).reader.text(),
            final(self).reader.cursor() >= old(self).reader.cursor(),
            match (r, number_step(old(self).reader.text(), old(self).reader.cursor())) {
                (Ok(None), Ok((None, j))) => final(self).reader.cursor() == j,
                (Ok(Some(n)), Ok((Some(v), j))) => n@ == v && n.wf() && final(self).reader.cursor()
                    == j && j > old(self).reader.cursor(),
                (Err(e), Err(f)) => error_is(old(self).reader.text(), e, f),
                _ => false,
            },
    {
        let ghost s = self.reader.text();
        proof {
            self.reader.lemma_wf();
            lemma_span_end(s, self.reader.cursor(), CharClass::Space);
        }
        self.reader.consume_whitespace();
        let a = self.reader.char_index();
        proof {
            self.reader.lemma_wf();
            lemma_number_scan(s, a as int);
        }
        if !self.reader.consume_number() {
            return Ok(None);
        }
        Ok(Some(Number::decode(&self.reader, a)))
    }
}

impl Command {
    /// The letter of the command.
    pub fn letter(&self) -> (r: char)
        ensures
            r == self@.0,
    {
        let (upper, lower, p) = match self {
            Command::Move(p, _) => ('M', 'm', *p),
            Command::Line(p, _) => ('L', 'l', *p),
            Command::HorizontalLine(p, _) => ('H', 'h', *p),
            Command::VerticalLine(p, _) => ('V', 'v', *p),
            Command::QuadraticCurve(p, _) => ('Q', 'q', *p),
            Command::SmoothQuadraticCurve(p, _) => ('T', 't', *p),
            Command::CubicCurve(p, _) => ('C', 'c', *p),
            Command::SmoothCubicCurve(p, _) => ('S', 's', *p),
            Command::EllipticalArc(p, _) => ('A', 'a', *p),
            Command::Close => {
                return 'z';
            },
        };
        match p {
            Positioning::Absolute => upper,
            Positioning::Relative => lower,
        }
    }

    /// The parameters of the command; none for a close.
    pub fn parameters(&self) -> (r: Option<&Vec<Number>>)
        ensures
            match r {
                Some(v) => number_views(v@) == self@.1,
                None => self@.1.len() == 0,
            },
    {
        match self {
            Command::Move(_, v) => Some(v),
            Command::Line(_, v) => Some(v),
            Command::HorizontalLine(_, v) => Some(v),
            Command::VerticalLine(_, v) => Some(v),
            Command::QuadraticCurve(_, v) => Some(v),
            Command::SmoothQuadraticCurve(_, v) => Some(v),
            Command::CubicCurve(_, v) => Some(v),
            Command::SmoothCubicCurve(_, v) => Some(v),
            Command::EllipticalArc(_, v) => Some(v),
            Command::Close => None,
        }
    }

    /// The command written out: its letter, then its parameters with commas
    /// between.
    pub fn to_string(&self) -> (r: String)
        requires
            self.wf(),
        ensures
            r@ == command_text(self@),
    {
        let mut s = String::new();
        push_char(&mut s, self.letter());
        match self.parameters() {
            Some(v) => {
                proof {
                    assert forall|k: int| 0 <= k < v@.len() implies crate::number::canonical(
                        #[trigger] v@[k]@,
                    ) by {
                        assert(number_views(v@)[k] == v@[k]@);
                        assert(self@.1[k] == v@[k]@);
                    }
                }
                push_parameters(&mut s, v);
            },
            None => {
                assert(self@.1.map_values(|n: (bool, Seq<u8>, int)| number_text(n)) =~= Seq::<
                    Seq<char>,
                >::empty());
            },
        }
        assert(s@ =~= command_text(self@));
        s
    }
}

/// Appends numbers in plain decimal form with commas between.
fn push_parameters(s: &mut String, v: &Vec<Number>)
    requires
        forall|k: int| 0 <= k < v@.len() ==> crate::number::canonical(#[trigger] v@[k]@),
    ensures
        final(s)@ == old(s)@ + parameters_text(number_views(v@)),
{
    let ghost start = old(s)@;
    let ghost parts = number_views(v@).map_values(|n: (bool, Seq<u8>, int)| number_text(n));
    let mut i: usize = 0;
    assert(parts.take(0) =~= Seq::<Seq<char>>::empty());
    while i < v.len()
        invariant
            i <= v.len(),
            parts == number_views(v@).map_values(|n: (bool, Seq<u8>, int)| number_text(n)),
            parts.len() == v@.len(),
            forall|k: int| 0 <= k < v@.len() ==> crate::number::canonical(#[trigger] v@[k]@),
            s@ == start + joined(parts.take(i as int), ','),
        decreases v.len() - i,
    {
        if i > 0 {
            push_char(s, ',');
        }
        let text = v[i].to_string();
        push_str(s, text.as_str());
        proof {
            assert(parts.take(i + 1).drop_last() =~= parts.take(i as int));
            assert(parts[i as int] == number_text(v@[i as int]@));
            assert(parts.take(i + 1).last() == parts[i as int]);
            if i == 0 {
                assert(s@ =~= start + joined(parts.take(i + 1), ','));
            } else {
                assert(s@ =~= start + joined(parts.take(i + 1), ','));
            }
        }
        i += 1;
    }
    assert(parts.take(v.len() as int) =~= parts);
}

impl Data {
    /// The data written out: its commands with single spaces between.
    pub fn to_string(&self) -> (r: String)
        requires
            self.wf(),
        ensures
            r@ == data_text(self@),
    {
        let ghost parts = self@.map_values(
            |c: (char, Seq<(bool, Seq<u8>, int)>)| command_text(c),
        );
        let mut s = String::new();
        let mut i: usize = 0;
        assert(parts.take(0) =~= Seq::<Seq<char>>::empty());
        while i < self.0.len()
            invariant
                i <= self.0.len(),
                self.wf(),
                self@ == self.0@.map_values(|c: Command| c@),
                parts == self@.map_values(|c: (char, Seq<(bool, Seq<u8>, int)>)| command_text(c)),
                s@ == joined(parts.take(i as int), ' '),
            decreases self.0.len() - i,
        {
            if i > 0 {
                push_char(&mut s, ' ');
            }
            proof {
                assert(self@[i as int] == self.0@[i as int]@);
                assert forall|k: int| 0 <= k < self.0@[i as int]@.1.len() implies crate::number::canonical(
                    #[trigger] self.0@[i as int]@.1[k],
                ) by {
                    assert(self@[i as int].1[k] == self.0@[i as int]@.1[k]);
                }
            }
            let text = self.0[i].to_string();
            push_str(&mut s, text.as_str());
            proof {
                assert(parts.take(i + 1).drop_last() =~= parts.take(i as int));
                assert(parts.take(i + 1).last() == parts[i as int]);
                assert(s@ =~= joined(parts.take(i + 1), ' '));
            }
            i += 1;
        }
        assert(parts.take(self.0.len() as int) =~= parts);
        s
    }
}

impl Data {
    /// Appends a command.
    pub fn add(self, command: Command) -> (r: Data)
        ensures
            r@ == self@.push(command@),
    {
        let mut v = self.0;
        v.push(command);
        let r = Data(v);
        assert(r@ =~= self@.push(command@));
        r
    }

    /// Appends a close.
    pub fn close(self) -> (r: Data)
        ensures
            r@ == self@.push(('z', Seq::empty())),
    {
        self.add(Command::Close)
    }

    /// Appends a move with absolute parameters.
    pub fn move_to(self, parameters: Vec<Number>) -> (r: Data)
        ensures
            r@ == self@.push(('M', number_views(parameters@))),
    {
        self.add(Command::Move(Positioning::Absolute, parameters))
    }

    /// Appends a move with relative parameters.
    pub fn move_by(self, parameters: Vec<Number>) -> (r: Data)
        ensures
            r@ == self@.push(('m', number_views(parameters@))),
    {
        self.add(Command::Move(Positioning::Relative, parameters))
    }

    /// Appends a line with absolute parameters.
    pub fn line_to(self, parameters: Vec<Number>) -> (r: Data)
        ensures
            r@ == self@.push(('L', number_views(parameters@))),
    {
        self.add(Command::Line(Positioning::Absolute, parameters))
    }

    /// Appends a line with relative parameters.
    pub fn line_by(self, parameters: Vec<Number>) -> (r: Data)
        ensures
            r@ == self@.push(('l', number_views(parameters@))),
    {
        self.add(Command::Line(Positioning::Relative, parameters))
    }

    /// Appends a horizontal line with absolute parameters.
    pub fn horizontal_line_to(self, parameters: Vec<Number>) -> (r: Data)
        ensures
            r@ == self@.push(('H', number_views(parameters@))),
    {
        self.add(Command::HorizontalLine(Positioning::Absolute, parameters))
    }

    /// Appends a horizontal line with relative parameters.
    pub fn horizontal_line_by(self, parameters: Vec<Number>) -> (r: Data)
        ensures
            r@ == self@.push(('h', number_views(parameters@))),
    {
        self.add(Command::HorizontalLine(Positioning::Relative, parameters))
    }

    /// Appends a vertical line with absolute parameters.
    pub fn vertical_line_to(self, parameters: Vec<Number>) -> (r: Data)
        ensures
            r@ == self@.push(('V', number_views(parameters@))),
    {
        self.add(Command::VerticalLine(Positioning::Absolute, parameters))
    }

    /// Appends a vertical line with relative parameters.
    pub fn vertical_line_by(self, parameters: Vec<Number>) -> (r: Data)
        ensures
            r@ == self@.push(('v', number_views(parameters@))),
    {
        self.add(Command::VerticalLine(Positioning::Relative, parameters))
    }

    /// Appends a quadratic curve with absolute parameters.
    pub fn quadratic_curve_to(self, parameters: Vec<Number>) -> (r: Data)
        ensures
            r@ == self@.push(('Q', number_views(parameters@))),
    {
        self.add(Command::QuadraticCurve(Positioning::Absolute, parameters))
    }

    /// Appends a quadratic curve with relative parameters.
    pub fn quadratic_curve_by(self, parameters: Vec<Number>) -> (r: Data)
        ensures
            r@ == self@.push(('q', number_views(parameters@))),
    {
        self.add(Command::QuadraticCurve(Positioning::Relative, parameters))
    }

    /// Appends a smooth quadratic curve with absolute parameters.
    pub fn smooth_quadratic_curve_to(self, parameters: Vec<Number>) -> (r: Data)
        ensures
            r@ == self@.push(('T', number_views(parameters@))),
    {
        self.add(Command::SmoothQuadraticCurve(Positioning::Absolute, parameters))
    }

    /// Appends a smooth quadratic curve with relative parameters.
    pub fn smooth_quadratic_curve_by(self, parameters: Vec<Number>) -> (r: Data)
        ensures
            r@ == self@.push(('t', number_views(parameters@))),
    {
        self.add(Command::SmoothQuadraticCurve(Positioning::Relative, parameters))
    }

    /// Appends a cubic curve with absolute parameters.
    pub fn cubic_curve_to(self, parameters: Vec<Number>) -> (r: Data)
        ensures
            r@ == self@.push(('C', number_views(parameters@))),
    {
        self.add(Command::CubicCurve(Positioning::Absolute, parameters))
    }

    /// Appends a cubic curve with relative parameters.
    pub fn cubic_curve_by(self, parameters: Vec<Number>) -> (r: Data)
        ensures
            r@ == self@.push(('c', number_views(parameters@))),
    {
        self.add(Command::CubicCurve(Positioning::Relative, parameters))
    }

    /// Appends a smooth cubic curve with absolute parameters.
    pub fn smooth_cubic_curve_to(self, parameters: Vec<Number>) -> (r: Data)
        ensures
            r@ == self@.push(('S', number_views(parameters@))),
    {
        self.add(Command::SmoothCubicCurve(Positioning::Absolute, parameters))
    }

    /// Appends a smooth cubic curve with relative parameters.
    pub fn smooth_cubic_curve_by(self, parameters: Vec<Number>) -> (r: Data)
        ensures
            r@ == self@.push(('s', number_views(parameters@))),
    {
        self.add(Command::SmoothCubicCurve(Positioning::Relative, parameters))
    }

    /// Appends an elliptical arc with absolute parameters.
    pub fn elliptical_arc_to(self, parameters: Vec<Number>) -> (r: Data)
        ensures
            r@ == self@.push(('A', number_views(parameters@))),
    {
        self.add(Command::EllipticalArc(Positioning::Absolute, parameters))
    }

    /// Appends an elliptical arc with relative parameters.
    pub fn elliptical_arc_by(self, parameters: Vec<Number>) -> (r: Data)
        ensures
            r@ == self@.push(('a', number_views(parameters@))),
    {
        self.add(Command::EllipticalArc(Positioning::Relative, parameters))
    }
}

impl Data {
    /// Each command has a known letter, and a close has no parameters.
    pub proof fn lemma_letters(&self)
        ensures
            forall|i: int|
                0 <= i < self@.len() ==> is_drawing_letter(#[trigger] self@[i].0) || (self@[i].0
                    == 'z' && self@[i].1.len() == 0),
    {
        assert forall|i: int| 0 <= i < self@.len() implies is_drawing_letter(
            #[trigger] self@[i].0,
        ) || (self@[i].0 == 'z' && self@[i].1.len() == 0) by {
            assert(self@[i] == self.0@[i]@);
        }
    }

    /// Well-formed path data whose elliptical arcs hold their flags in
    /// place parses back as itself once written out.
    pub proof fn lemma_round_trip(&self)
        requires
            self.wf(),
            forall|i: int| 0 <= i < self@.len() ==> arc_flags_in_place(#[trigger] self@[i]),
        ensures
            data_scan(data_text(self@), 0) == Ok::<_, Failure>(self@),
    {
        self.lemma_letters();
        assert forall|i: int| 0 <= i < self@.len() implies writable(#[trigger] self@[i]) by {
            assert(arc_flags_in_place(self@[i]));
        }
        lemma_data_round_trip(self@);
    }
}

} // verus!
