//! Numbers of path data, held exactly as decimals.
use vstd::prelude::*;
use crate::chars::{digit_char, digit_to_char, is_digit, push_char, push_str};
use crate::reader::{at, lemma_span_end, number_scan, sign_end, span_end, CharClass, Reader, MAX_TEXT};

verus! {

/// The largest exponent, in absolute value, that a number holds as
/// written. A larger written exponent is held as this one: the text may be
/// far longer than any real document and a number so written still lies far
/// beyond the range of any float.
pub const EXPONENT_LIMIT: u64 = 4_611_686_018_427_387_904;

/// A decimal number: a sign, the digits of its significand and a power of
/// ten. Its value is `±digits × 10^exponent`. The digits carry no leading
/// and no trailing zero, so each value has one form; zero has no digits.
pub struct Number {
    negative: bool,
    digits: Vec<u8>,
    exponent: i64,
}

impl View for Number {
    type V = (bool, Seq<u8>, int);

    closed spec fn view(&self) -> (bool, Seq<u8>, int) {
        (self.negative, self.digits@, self.exponent as int)
    }
}

/// How far the exponent of a number may reach.
pub open spec fn exponent_bound() -> int {
    2 * MAX_TEXT + EXPONENT_LIMIT
}

/// Whether a sign, digits and exponent are in the one form of their value.
pub open spec fn canonical(v: (bool, Seq<u8>, int)) -> bool {
    &&& v.1.len() <= MAX_TEXT
    &&& -exponent_bound() <= v.2 <= exponent_bound()
    &&& forall|i: int| 0 <= i < v.1.len() ==> #[trigger] v.1[i] < 10
    &&& v.1.len() == 0 ==> v.2 == 0
    &&& v.1.len() > 0 ==> v.1[0] != 0 && v.1.last() != 0
}

/// The number of zeros that a digit sequence starts with.
pub open spec fn leading_zeros(ds: Seq<u8>) -> nat
    decreases ds.len(),
{
    if ds.len() > 0 && ds[0] == 0 {
        1 + leading_zeros(ds.drop_first())
    } else {
        0
    }
}

/// The number of zeros that a digit sequence ends with.
pub open spec fn trailing_zeros(ds: Seq<u8>) -> nat
    decreases ds.len(),
{
    if ds.len() > 0 && ds.last() == 0 {
        1 + trailing_zeros(ds.drop_last())
    } else {
        0
    }
}

/// `±ds × 10^e` in its one form.
pub open spec fn normalize(negative: bool, ds: Seq<u8>, e: int) -> (bool, Seq<u8>, int) {
    let a = leading_zeros(ds);
    if a >= ds.len() {
        (negative, Seq::empty(), 0)
    } else {
        let rest = ds.subrange(a as int, ds.len() as int);
        let t = trailing_zeros(rest);
        (negative, rest.subrange(0, rest.len() - t), e + t)
    }
}

/// The values of decimal digit characters.
pub open spec fn digit_values(cs: Seq<char>) -> Seq<u8> {
    cs.map_values(|c: char| ((c as u32) - 48) as u8)
}

/// The value of a digit sequence, most significant first.
pub open spec fn digits_value(ds: Seq<u8>) -> nat
    decreases ds.len(),
{
    if ds.len() == 0 {
        0
    } else {
        digits_value(ds.drop_last()) * 10 + ds.last() as nat
    }
}

/// Where the exponent of the number at `i` starts, after its digits and
/// fraction.
pub open spec fn mantissa_end(s: Seq<char>, i: int) -> int {
    let k = span_end(s, sign_end(s, i), CharClass::Digit);
    if at(s, k, '.') {
        span_end(s, k + 1, CharClass::Digit)
    } else {
        k
    }
}

/// The digits of the exponent of the number at `i`, if it has one.
pub open spec fn exponent_digits(s: Seq<char>, i: int) -> Seq<char> {
    let m = mantissa_end(s, i);
    if at(s, m, 'e') || at(s, m, 'E') {
        let n = sign_end(s, m + 1);
        s.subrange(n, span_end(s, n, CharClass::Digit))
    } else {
        Seq::empty()
    }
}

/// The exponent that the number at `i` is written with.
pub open spec fn written_exponent(s: Seq<char>, i: int) -> int {
    let m = mantissa_end(s, i);
    let v = saturated(digits_value(digit_values(exponent_digits(s, i)))) as int;
    if at(s, m + 1, '-') && (at(s, m, 'e') || at(s, m, 'E')) {
        -v
    } else {
        v
    }
}

/// The value of the number written at `i`.
pub open spec fn number_value(s: Seq<char>, i: int) -> (bool, Seq<u8>, int) {
    let j = sign_end(s, i);
    let k = span_end(s, j, CharClass::Digit);
    let m = mantissa_end(s, i);
    let fraction = if at(s, k, '.') {
        s.subrange(k + 1, m)
    } else {
        Seq::empty()
    };
    normalize(at(s, i, '-'), digit_values(s.subrange(j, k) + fraction), written_exponent(s, i)
        - fraction.len())
}

/// A written exponent as it is held: at most the limit.
pub open spec fn saturated(v: nat) -> nat {
    if v <= EXPONENT_LIMIT {
        v
    } else {
        EXPONENT_LIMIT as nat
    }
}

proof fn lemma_saturated_step(v: nat, p: nat, d: nat)
    requires
        v == saturated(p),
        d < 10,
    ensures
        (v > (EXPONENT_LIMIT - d) / 10) ==> saturated(p * 10 + d) == EXPONENT_LIMIT,
        !(v > (EXPONENT_LIMIT - d) / 10) ==> saturated(p * 10 + d) == v * 10 + d,
{
    let l = EXPONENT_LIMIT as int;
    let q = (l - d) / 10;
    assert(10 * q + 10 > l - d) by (nonlinear_arith)
        requires
            q == (l - d) / 10,
            l - d >= 0,
    ;
    assert(10 * q <= l - d) by (nonlinear_arith)
        requires
            q == (l - d) / 10,
            l - d >= 0,
    ;
    if v > q {
        assert(p * 10 + d > l) by (nonlinear_arith)
            requires
                p >= v,
                v >= q + 1,
                10 * q + 10 > l - d,
        ;
    } else {
        assert(v * 10 + d <= l) by (nonlinear_arith)
            requires
                v <= q,
                10 * q <= l - d,
        ;
        assert(p == v);
    }
}

/// A run of `n` zeros.
pub open spec fn zeros(n: nat) -> Seq<char> {
    Seq::new(n, |i: int| '0')
}

/// The characters of digits.
pub open spec fn digit_text(ds: Seq<u8>) -> Seq<char> {
    ds.map_values(|d: u8| digit_char(d as nat))
}

/// The digits of a number in plain decimal form, with the decimal point
/// where the exponent puts it: `0` for zero.
pub open spec fn number_body(v: (bool, Seq<u8>, int)) -> Seq<char> {
    let ds = digit_text(v.1);
    let e = v.2;
    if v.1.len() == 0 {
        seq!['0']
    } else if e >= 0 {
        ds + zeros(e as nat)
    } else if -e < ds.len() {
        ds.subrange(0, ds.len() + e).push('.') + ds.subrange(ds.len() + e, ds.len() as int)
    } else {
        seq!['0', '.'] + zeros((-e - ds.len()) as nat) + ds
    }
}

/// A number in plain decimal form, without an exponent: `-` when negative,
/// then its digits.
pub open spec fn number_text(v: (bool, Seq<u8>, int)) -> Seq<char> {
    if v.0 {
        seq!['-'] + number_body(v)
    } else {
        number_body(v)
    }
}

proof fn lemma_leading_zeros(ds: Seq<u8>, a: int)
    requires
        0 <= a <= ds.len(),
        forall|i: int| 0 <= i < a ==> ds[i] == 0,
        a < ds.len() ==> ds[a] != 0,
    ensures
        leading_zeros(ds) == a,
    decreases a,
{
    if a > 0 {
        let t = ds.drop_first();
        assert forall|i: int| 0 <= i < a - 1 implies t[i] == 0 by {
            assert(t[i] == ds[i + 1]);
        }
        if a - 1 < t.len() {
            assert(t[a - 1] == ds[a]);
        }
        lemma_leading_zeros(t, a - 1);
    }
}

proof fn lemma_trailing_zeros(ds: Seq<u8>, b: int)
    requires
        0 <= b <= ds.len(),
        forall|i: int| b <= i < ds.len() ==> ds[i] == 0,
        b > 0 ==> ds[b - 1] != 0,
    ensures
        trailing_zeros(ds) == ds.len() - b,
    decreases ds.len() - b,
{
    if b < ds.len() {
        let t = ds.drop_last();
        assert forall|i: int| b <= i < t.len() implies t[i] == 0 by {
            assert(t[i] == ds[i]);
        }
        if b > 0 {
            assert(t[b - 1] == ds[b - 1]);
        }
        lemma_trailing_zeros(t, b);
    }
}

/// Whether a character could continue a number: a digit, `.`, `e` or `E`.
pub open spec fn continues_number(c: char) -> bool {
    is_digit(c) || c == '.' || c == 'e' || c == 'E'
}

proof fn lemma_span_exact(s: Seq<char>, i: int, j: int, class: CharClass)
    requires
        0 <= i <= j <= s.len(),
        forall|k: int| i <= k < j ==> class.holds(#[trigger] s[k]),
        j == s.len() || !class.holds(s[j]),
    ensures
        span_end(s, i, class) == j,
    decreases j - i,
{
    if i < j {
        lemma_span_exact(s, i + 1, j, class);
    }
}

proof fn lemma_digit_char(d: nat)
    requires
        d < 10,
    ensures
        is_digit(digit_char(d)),
        ((digit_char(d) as u32) - 48) as u8 == d,
{
}

proof fn lemma_digit_values_text(ds: Seq<u8>)
    requires
        forall|i: int| 0 <= i < ds.len() ==> #[trigger] ds[i] < 10,
    ensures
        digit_values(digit_text(ds)) == ds,
        forall|i: int| 0 <= i < ds.len() ==> is_digit(#[trigger] digit_text(ds)[i]),
{
    assert forall|i: int| 0 <= i < ds.len() implies is_digit(#[trigger] digit_text(ds)[i])
        && digit_values(digit_text(ds))[i] == ds[i] by {
        lemma_digit_char(ds[i] as nat);
    }
    assert(digit_values(digit_text(ds)) =~= ds);
}

proof fn lemma_zero_values(n: nat)
    ensures
        digit_values(zeros(n)) == Seq::new(n, |i: int| 0u8),
        forall|i: int| 0 <= i < n ==> is_digit(#[trigger] zeros(n)[i]),
{
    assert(digit_values(zeros(n)) =~= Seq::new(n, |i: int| 0u8));
}

proof fn lemma_normalize_plain(negative: bool, ds: Seq<u8>, z: nat, w: nat, e: int)
    requires
        canonical((negative, ds, e + w)),
        ds.len() > 0,
    ensures
        normalize(negative, Seq::new(z, |i: int| 0u8) + ds + Seq::new(w, |i: int| 0u8), e) == (
            negative,
            ds,
            e + w,
        ),
{
    let all = Seq::new(z, |i: int| 0u8) + ds + Seq::new(w, |i: int| 0u8);
    lemma_leading_zeros(all, z as int);
    let rest = all.subrange(z as int, all.len() as int);
    assert(rest =~= ds + Seq::new(w, |i: int| 0u8));
    lemma_trailing_zeros(rest, ds.len() as int);
    assert(rest.subrange(0, rest.len() - w) =~= ds);
}

/// The facts that the scan of a number whose digits stand from `j` to
/// `end` rests on.
pub open spec fn body_at(v: (bool, Seq<u8>, int), s: Seq<char>, j: int, end: int) -> bool {
    &&& canonical(v)
    &&& 0 <= j <= end <= s.len()
    &&& end - j == number_body(v).len()
    &&& forall|q: int| j <= q < end ==> #[trigger] s[q] == number_body(v)[q - j]
    &&& (end == s.len() || !continues_number(s[end]))
}

proof fn lemma_body_zero(v: (bool, Seq<u8>, int), s: Seq<char>, j: int, end: int)
    requires
        body_at(v, s, j, end),
        v.1.len() == 0,
    ensures
        span_end(s, j, CharClass::Digit) == end,
        !at(s, end, '.'),
        end > j,
        digit_values(s.subrange(j, end)) == seq![0u8],
{
    assert(s[j] == '0');
    lemma_span_exact(s, j, end, CharClass::Digit);
    assert(digit_values(s.subrange(j, end)) =~= seq![0u8]);
}

proof fn lemma_body_integer(v: (bool, Seq<u8>, int), s: Seq<char>, j: int, end: int)
    requires
        body_at(v, s, j, end),
        v.1.len() > 0,
        v.2 >= 0,
    ensures
        span_end(s, j, CharClass::Digit) == end,
        !at(s, end, '.'),
        end > j,
        digit_values(s.subrange(j, end)) == v.1 + Seq::new(v.2 as nat, |i: int| 0u8),
{
    let ds = digit_text(v.1);
    let n = ds.len() as int;
    let z = v.2 as nat;
    lemma_digit_values_text(v.1);
    lemma_zero_values(z);
    assert(number_body(v) == ds + zeros(z));
    assert forall|q: int| j <= q < end implies CharClass::Digit.holds(#[trigger] s[q]) by {
        if q - j < n {
            assert(number_body(v)[q - j] == ds[q - j]);
        } else {
            assert(number_body(v)[q - j] == zeros(z)[q - j - n]);
        }
    }
    lemma_span_exact(s, j, end, CharClass::Digit);
    assert(s.subrange(j, end) =~= ds + zeros(z));
    assert(digit_values(ds + zeros(z)) =~= digit_values(ds) + digit_values(zeros(z)));
}

proof fn lemma_body_point(v: (bool, Seq<u8>, int), s: Seq<char>, j: int, end: int)
    requires
        body_at(v, s, j, end),
        v.1.len() > 0,
        v.2 < 0,
        -v.2 < v.1.len(),
    ensures
        span_end(s, j, CharClass::Digit) == j + v.1.len() + v.2,
        at(s, j + v.1.len() + v.2, '.'),
        span_end(s, j + v.1.len() + v.2 + 1, CharClass::Digit) == end,
        end > j + v.1.len() + v.2 + 1,
        digit_values(s.subrange(j, j + v.1.len() + v.2) + s.subrange(j + v.1.len() + v.2 + 1, end))
            == v.1,
        end - (j + v.1.len() + v.2 + 1) == -v.2,
{
    let ds = digit_text(v.1);
    let n = ds.len() as int;
    let p = n + v.2;
    let k = j + p;
    lemma_digit_values_text(v.1);
    let body = number_body(v);
    assert(body == ds.subrange(0, p).push('.') + ds.subrange(p, n));
    assert forall|q: int| j <= q < k implies CharClass::Digit.holds(#[trigger] s[q]) by {
        assert(body[q - j] == ds[q - j]);
    }
    assert(body[p] == '.');
    lemma_span_exact(s, j, k, CharClass::Digit);
    assert forall|q: int| k + 1 <= q < end implies CharClass::Digit.holds(#[trigger] s[q]) by {
        assert(body[q - j] == ds[q - j - 1]);
    }
    lemma_span_exact(s, k + 1, end, CharClass::Digit);
    assert forall|q: int| 0 <= q < n implies (s.subrange(j, k) + s.subrange(k + 1, end))[q]
        == #[trigger] ds[q] by {
        if q < p {
            assert(body[q] == ds[q]);
        } else {
            assert(body[q + 1] == ds[q]);
        }
    }
    assert(s.subrange(j, k) + s.subrange(k + 1, end) =~= ds);
}

proof fn lemma_body_fraction(v: (bool, Seq<u8>, int), s: Seq<char>, j: int, end: int)
    requires
        body_at(v, s, j, end),
        v.1.len() > 0,
        v.2 < 0,
        -v.2 >= v.1.len(),
    ensures
        span_end(s, j, CharClass::Digit) == j + 1,
        at(s, j + 1, '.'),
        span_end(s, j + 2, CharClass::Digit) == end,
        end > j + 2,
        end - (j + 2) == -v.2,
        digit_values(s.subrange(j, j + 1) + s.subrange(j + 2, end)) == Seq::new(
            (-v.2 - v.1.len() + 1) as nat,
            |i: int| 0u8,
        ) + v.1,
{
    let ds = digit_text(v.1);
    let n = ds.len() as int;
    let z = (-v.2 - n) as nat;
    lemma_digit_values_text(v.1);
    lemma_zero_values(z);
    let body = number_body(v);
    assert(body == seq!['0', '.'] + zeros(z) + ds);
    assert(body[0] == '0');
    assert(body[1] == '.');
    lemma_span_exact(s, j, j + 1, CharClass::Digit);
    assert forall|q: int| j + 2 <= q < end implies CharClass::Digit.holds(#[trigger] s[q]) by {
        if q - j - 2 < z {
            assert(body[q - j] == zeros(z)[q - j - 2]);
        } else {
            assert(body[q - j] == ds[q - j - 2 - z]);
        }
    }
    lemma_span_exact(s, j + 2, end, CharClass::Digit);
    assert forall|q: int| 0 <= q < 1 + z + n implies (s.subrange(j, j + 1) + s.subrange(
        j + 2,
        end,
    ))[q] == #[trigger] (seq!['0'] + zeros(z) + ds)[q] by {
        if q >= 1 {
            assert(body[q + 1] == (seq!['0'] + zeros(z) + ds)[q]);
        }
    }
    assert(s.subrange(j, j + 1) + s.subrange(j + 2, end) =~= seq!['0'] + zeros(z) + ds);
    assert(digit_values(seq!['0'] + zeros(z) + ds) =~= Seq::new(z + 1, |i: int| 0u8) + v.1);
}

/// A number written out in plain decimal form reads back as the same
/// number, wherever it stands in a text and whatever follows it that
/// cannot continue a number.
#[verifier::rlimit(60)]
pub proof fn lemma_number_text_reads_back(v: (bool, Seq<u8>, int), s: Seq<char>, i: int)
    requires
        canonical(v),
        0 <= i,
        i + number_text(v).len() <= s.len(),
        s.subrange(i, i + number_text(v).len()) == number_text(v),
        i + number_text(v).len() == s.len() || !continues_number(s[i + number_text(v).len()]),
    ensures
        number_scan(s, i) == (true, i + number_text(v).len()),
        number_value(s, i) == v,
{
    let t = number_text(v);
    let body = number_body(v);
    let end = i + t.len();
    let j = if v.0 {
        i + 1
    } else {
        i
    };
    assert forall|q: int| j <= q < end implies #[trigger] s[q] == body[q - j] by {
        assert(s.subrange(i, end)[q - i] == s[q]);
    }
    lemma_digit_values_text(v.1);
    if v.0 {
        assert(s.subrange(i, end)[0] == '-');
    } else if v.1.len() > 0 && (v.2 >= 0 || -v.2 < v.1.len()) {
        assert(body[0] == digit_text(v.1)[0]);
        lemma_digit_char(v.1[0] as nat);
    }
    assert(s[j] == body[0]);
    assert(sign_end(s, i) == j);
    assert(body_at(v, s, j, end));
    assert(exponent_digits(s, i) =~= Seq::<char>::empty()) by {
        if v.1.len() == 0 {
            lemma_body_zero(v, s, j, end);
        } else if v.2 >= 0 {
            lemma_body_integer(v, s, j, end);
        } else if -v.2 < v.1.len() {
            lemma_body_point(v, s, j, end);
        } else {
            lemma_body_fraction(v, s, j, end);
        }
    }
    assert(digit_values(Seq::<char>::empty()) =~= Seq::<u8>::empty());
    assert(saturated(0) == 0);
    assert(written_exponent(s, i) == 0);
    if v.1.len() == 0 {
        lemma_body_zero(v, s, j, end);
        assert(s.subrange(j, end) + Seq::<char>::empty() =~= s.subrange(j, end));
        let all = seq![0u8];
        assert(leading_zeros(all.drop_first()) == 0);
        assert(leading_zeros(all) == 1);
    } else if v.2 >= 0 {
        lemma_body_integer(v, s, j, end);
        assert(s.subrange(j, end) + Seq::<char>::empty() =~= s.subrange(j, end));
        lemma_normalize_plain(v.0, v.1, 0, v.2 as nat, 0);
        assert(Seq::new(0, |i: int| 0u8) + v.1 + Seq::new(v.2 as nat, |i: int| 0u8) =~= v.1
            + Seq::new(v.2 as nat, |i: int| 0u8));
    } else if -v.2 < v.1.len() {
        lemma_body_point(v, s, j, end);
        lemma_normalize_plain(v.0, v.1, 0, 0, v.2);
        assert(Seq::new(0, |i: int| 0u8) + v.1 + Seq::new(0, |i: int| 0u8) =~= v.1);
    } else {
        lemma_body_fraction(v, s, j, end);
        let z = (-v.2 - v.1.len() + 1) as nat;
        lemma_normalize_plain(v.0, v.1, z, 0, v.2);
        assert(Seq::new(z, |i: int| 0u8) + v.1 + Seq::new(0, |i: int| 0u8) =~= Seq::new(
            z,
            |i: int| 0u8,
        ) + v.1);
    }
}

proof fn lemma_leading_zeros_facts(ds: Seq<u8>)
    ensures
        leading_zeros(ds) <= ds.len(),
        forall|i: int| 0 <= i < leading_zeros(ds) ==> ds[i] == 0,
        leading_zeros(ds) < ds.len() ==> ds[leading_zeros(ds) as int] != 0,
    decreases ds.len(),
{
    if ds.len() > 0 && ds[0] == 0 {
        let t = ds.drop_first();
        lemma_leading_zeros_facts(t);
        assert forall|i: int| 0 <= i < leading_zeros(ds) implies ds[i] == 0 by {
            if i > 0 {
                assert(ds[i] == t[i - 1]);
            }
        }
        if leading_zeros(ds) < ds.len() {
            assert(ds[leading_zeros(ds) as int] == t[leading_zeros(t) as int]);
        }
    }
}

proof fn lemma_trailing_zeros_facts(ds: Seq<u8>)
    ensures
        trailing_zeros(ds) <= ds.len(),
        trailing_zeros(ds) < ds.len() ==> ds[ds.len() - 1 - trailing_zeros(ds)] != 0,
        forall|i: int| ds.len() - trailing_zeros(ds) <= i < ds.len() ==> ds[i] == 0,
    decreases ds.len(),
{
    if ds.len() > 0 && ds.last() == 0 {
        let t = ds.drop_last();
        lemma_trailing_zeros_facts(t);
        assert forall|i: int| ds.len() - trailing_zeros(ds) <= i < ds.len() implies ds[i] == 0 by {
            if i < ds.len() - 1 {
                assert(ds[i] == t[i]);
            }
        }
        if trailing_zeros(ds) < ds.len() {
            assert(ds[ds.len() - 1 - trailing_zeros(ds)] == t[t.len() - 1 - trailing_zeros(t)]);
        }
    }
}

proof fn lemma_normalize_canonical(negative: bool, ds: Seq<u8>, e: int)
    requires
        forall|i: int| 0 <= i < ds.len() ==> #[trigger] ds[i] < 10,
        ds.len() <= MAX_TEXT,
        -(MAX_TEXT + EXPONENT_LIMIT) <= e <= EXPONENT_LIMIT,
    ensures
        canonical(normalize(negative, ds, e)),
{
    lemma_leading_zeros_facts(ds);
    let a = leading_zeros(ds);
    if a < ds.len() {
        let rest = ds.subrange(a as int, ds.len() as int);
        lemma_trailing_zeros_facts(rest);
        let t = trailing_zeros(rest);
        let out = rest.subrange(0, rest.len() - t);
        assert(rest[0] == ds[a as int]);
        assert(t < rest.len());
        assert(out[0] == rest[0]);
        assert(out.last() == rest[rest.len() - 1 - t]);
        assert forall|i: int| 0 <= i < out.len() implies #[trigger] out[i] < 10 by {
            assert(out[i] == ds[a + i]);
        }
    }
}

proof fn lemma_number_value_canonical(s: Seq<char>)
    requires
        s.len() <= MAX_TEXT,
        number_scan(s, 0).0,
    ensures
        canonical(number_value(s, 0)),
{
    let j = sign_end(s, 0);
    lemma_span_end(s, j, CharClass::Digit);
    let k = span_end(s, j, CharClass::Digit);
    let m = mantissa_end(s, 0);
    if at(s, k, '.') {
        lemma_span_end(s, k + 1, CharClass::Digit);
    }
    let fraction = if at(s, k, '.') {
        s.subrange(k + 1, m)
    } else {
        Seq::empty()
    };
    let cs = s.subrange(j, k) + fraction;
    assert forall|q: int| 0 <= q < cs.len() implies is_digit(#[trigger] cs[q]) by {
        if q < k - j {
            assert(cs[q] == s[j + q]);
        } else {
            assert(cs[q] == s[k + 1 + q - (k - j)]);
        }
    }
    let ds = digit_values(cs);
    assert forall|q: int| 0 <= q < ds.len() implies #[trigger] ds[q] < 10 by {
        assert(is_digit(cs[q]));
    }
    assert(written_exponent(s, 0) <= EXPONENT_LIMIT);
    assert(written_exponent(s, 0) >= -(EXPONENT_LIMIT as int));
    lemma_normalize_canonical(at(s, 0, '-'), ds, written_exponent(s, 0) - fraction.len());
}

/// Reading a number and writing it out gives a text that reads back as the
/// same number.
pub proof fn lemma_number_round_trip(s: Seq<char>)
    requires
        s.len() <= MAX_TEXT,
        number_scan(s, 0) == (true, s.len() as int),
    ensures
        canonical(number_value(s, 0)),
        number_scan(number_text(number_value(s, 0)), 0) == (
            true,
            number_text(number_value(s, 0)).len() as int,
        ),
        number_value(number_text(number_value(s, 0)), 0) == number_value(s, 0),
{
    lemma_number_value_canonical(s);
    let v = number_value(s, 0);
    let t = number_text(v);
    assert(t.subrange(0, t.len() as int) =~= t);
    lemma_number_text_reads_back(v, t, 0);
}

impl Number {
    pub open spec fn wf(&self) -> bool {
        canonical(self@)
    }

    /// Zero.
    pub fn zero() -> (r: Number)
        ensures
            r.wf(),
            r@ == (false, Seq::<u8>::empty(), 0int),
    {
        Number { negative: false, digits: Vec::new(), exponent: 0 }
    }

    /// One.
    pub fn one() -> (r: Number)
        ensures
            r.wf(),
            r@ == (false, seq![1u8], 0int),
    {
        let mut digits: Vec<u8> = Vec::new();
        digits.push(1);
        Number { negative: false, digits, exponent: 0 }
    }

    /// The number that `text` writes, if the whole of it is a number.
    pub fn parse(text: &str) -> (r: Option<Number>)
        requires
            text@.len() <= MAX_TEXT,
        ensures
            r is Some == (number_scan(text@, 0) == (true, text@.len() as int)),
            r is Some ==> r->Some_0.wf() && r->Some_0@ == number_value(text@, 0),
    {
        let mut reader = Reader::new(text);
        if !reader.consume_number() || !reader.is_done() {
            return None;
        }
        Some(Number::decode(&reader, 0))
    }

    /// The number written at `start` in the reader's text, which a number
    /// scan reads.
    pub fn decode(reader: &Reader, start: usize) -> (r: Number)
        requires
            reader.wf(),
            start <= reader.text().len(),
            number_scan(reader.text(), start as int).0,
        ensures
            r.wf(),
            r@ == number_value(reader.text(), start as int),
    {
        let ghost s = reader.text();
        proof {
            reader.lemma_wf();
        }
        let n = reader.len();
        let negative = start < n && reader.char_at(start) == '-';
        let mut i: usize = if start < n && (reader.char_at(start) == '-' || reader.char_at(start)
            == '+') {
            start + 1
        } else {
            start
        };
        let j = i;
        let mut ds: Vec<u8> = Vec::new();
        proof {
            lemma_span_end(s, j as int, CharClass::Digit);
        }
        while i < n && '0' <= reader.char_at(i) && reader.char_at(i) <= '9'
            invariant
                j <= i <= n == s.len() <= MAX_TEXT,
                reader.wf(),
                reader.text() == s,
                j == sign_end(s, start as int),
                span_end(s, i as int, CharClass::Digit) == span_end(s, j as int, CharClass::Digit),
                ds@ == digit_values(s.subrange(j as int, i as int)),
                forall|q: int| 0 <= q < ds@.len() ==> #[trigger] ds@[q] < 10,
            decreases n - i,
        {
            ds.push(((reader.char_at(i) as u32) - 48) as u8);
            proof {
                assert(s.subrange(j as int, i + 1) =~= s.subrange(j as int, i as int).push(
                    s[i as int],
                ));
                assert(digit_values(s.subrange(j as int, i + 1)) =~= digit_values(
                    s.subrange(j as int, i as int),
                ).push(((s[i as int] as u32) - 48) as u8));
            }
            i += 1;
        }
        let k = i;
        let mut fraction: usize = 0;
        let ghost fr: Seq<char> = Seq::empty();
        if i < n && reader.char_at(i) == '.' {
            i += 1;
            proof {
                lemma_span_end(s, i as int, CharClass::Digit);
            }
            while i < n && '0' <= reader.char_at(i) && reader.char_at(i) <= '9'
                invariant
                    k + 1 <= i <= n == s.len() <= MAX_TEXT,
                    reader.wf(),
                    reader.text() == s,
                    at(s, k as int, '.'),
                    fraction == i - k - 1,
                    span_end(s, i as int, CharClass::Digit) == span_end(
                        s,
                        k + 1,
                        CharClass::Digit,
                    ),
                    ds@ == digit_values(s.subrange(j as int, k as int) + s.subrange(k + 1, i as int)),
                    forall|q: int| 0 <= q < ds@.len() ==> #[trigger] ds@[q] < 10,
                    ds@.len() == (k - j) + fraction,
                    j <= k,
                decreases n - i,
            {
                ds.push(((reader.char_at(i) as u32) - 48) as u8);
                proof {
                    let head = s.subrange(j as int, k as int);
                    assert(head + s.subrange(k + 1, i + 1) =~= (head + s.subrange(
                        k + 1,
                        i as int,
                    )).push(s[i as int]));
                    assert(digit_values((head + s.subrange(k + 1, i as int)).push(s[i as int]))
                        =~= digit_values(head + s.subrange(k + 1, i as int)).push(
                        ((s[i as int] as u32) - 48) as u8,
                    ));
                }
                i += 1;
                fraction += 1;
            }
            proof {
                fr = s.subrange(k + 1, i as int);
            }
        } else {
            assert(s.subrange(j as int, k as int) + fr =~= s.subrange(j as int, k as int));
        }
        let m = i;
        assert(m == mantissa_end(s, start as int));
        let mut value: u64 = 0;
        let mut minus = false;
        if i < n && (reader.char_at(i) == 'e' || reader.char_at(i) == 'E') {
            i += 1;
            if i < n && (reader.char_at(i) == '-' || reader.char_at(i) == '+') {
                minus = reader.char_at(i) == '-';
                i += 1;
            }
            let e0 = i;
            proof {
                lemma_span_end(s, e0 as int, CharClass::Digit);
            }
            while i < n && '0' <= reader.char_at(i) && reader.char_at(i) <= '9'
                invariant
                    e0 <= i <= n == s.len(),
                    reader.wf(),
                    reader.text() == s,
                    e0 == sign_end(s, m + 1),
                    span_end(s, i as int, CharClass::Digit) == span_end(
                        s,
                        e0 as int,
                        CharClass::Digit,
                    ),
                    value == saturated(digits_value(digit_values(s.subrange(e0 as int, i as int)))),
                    value <= EXPONENT_LIMIT,
                    m == mantissa_end(s, start as int),
                    at(s, m as int, 'e') || at(s, m as int, 'E'),
                decreases n - i,
            {
                let d = ((reader.char_at(i) as u32) - 48) as u64;
                proof {
                    assert(s.subrange(e0 as int, i + 1) =~= s.subrange(e0 as int, i as int).push(
                        s[i as int],
                    ));
                    assert(digit_values(s.subrange(e0 as int, i + 1)) =~= digit_values(
                        s.subrange(e0 as int, i as int),
                    ).push(((s[i as int] as u32) - 48) as u8));
                    assert(digit_values(s.subrange(e0 as int, i + 1)).drop_last() =~= digit_values(
                        s.subrange(e0 as int, i as int),
                    ));
                }
                proof {
                    lemma_saturated_step(
                        value as nat,
                        digits_value(digit_values(s.subrange(e0 as int, i as int))),
                        d as nat,
                    );
                }
                if value > (EXPONENT_LIMIT - d) / 10 {
                    value = EXPONENT_LIMIT;
                } else {
                    value = value * 10 + d;
                }
                i += 1;
            }
            assert(exponent_digits(s, start as int) == s.subrange(e0 as int, i as int));
        } else {
            assert(exponent_digits(s, start as int) =~= Seq::<char>::empty());
            assert(digit_values(Seq::<char>::empty()) =~= Seq::<u8>::empty());
        }
        assert(written_exponent(s, start as int) == if minus {
            -(value as int)
        } else {
            value as int
        });
        let written: i64 = if minus {
            -(value as i64)
        } else {
            value as i64
        };
        let e: i64 = written - fraction as i64;
        Number::normalized(negative, &ds, e)
    }

    /// `±ds × 10^e` in its one form.
    fn normalized(negative: bool, ds: &Vec<u8>, e: i64) -> (r: Number)
        requires
            forall|q: int| 0 <= q < ds@.len() ==> #[trigger] ds@[q] < 10,
            ds@.len() <= MAX_TEXT,
            -(MAX_TEXT + EXPONENT_LIMIT) <= e <= EXPONENT_LIMIT,
        ensures
            r.wf(),
            r@ == normalize(negative, ds@, e as int),
    {
        let n = ds.len();
        let mut a: usize = 0;
        while a < n && ds[a] == 0
            invariant
                a <= n == ds@.len(),
                forall|i: int| 0 <= i < a ==> ds@[i] == 0,
            decreases n - a,
        {
            a += 1;
        }
        proof {
            lemma_leading_zeros(ds@, a as int);
        }
        if a == n {
            return Number { negative, digits: Vec::new(), exponent: 0 };
        }
        let mut b: usize = n;
        while b > a && ds[b - 1] == 0
            invariant
                a < n == ds@.len(),
                ds@[a as int] != 0,
                a <= b <= n,
                forall|i: int| b <= i < n ==> ds@[i] == 0,
            decreases b - a,
        {
            b -= 1;
        }
        let ghost rest = ds@.subrange(a as int, n as int);
        proof {
            assert forall|i: int| b - a <= i < rest.len() implies rest[i] == 0 by {
                assert(rest[i] == ds@[a + i]);
            }
            assert(rest[b - a - 1] == ds@[b - 1]);
            lemma_trailing_zeros(rest, b - a);
        }
        let mut digits: Vec<u8> = Vec::new();
        let mut i = a;
        while i < b
            invariant
                a <= i <= b <= n == ds@.len(),
                digits@ =~= ds@.subrange(a as int, i as int),
            decreases b - i,
        {
            digits.push(ds[i]);
            i += 1;
        }
        assert(digits@ =~= rest.subrange(0, rest.len() - (n - b)));
        let exponent = e + (n - b) as i64;
        Number { negative, digits, exponent }
    }

    /// The number in plain decimal form.
    pub fn to_string(&self) -> (r: String)
        requires
            self.wf(),
        ensures
            r@ == number_text(self@),
    {
        let mut s = String::new();
        if self.negative {
            push_char(&mut s, '-');
        }
        let ghost sign = s@;
        let ghost ds = digit_text(self.digits@);
        let n = self.digits.len();
        if n == 0 {
            push_char(&mut s, '0');
            assert(s@ =~= number_text(self@));
            return s;
        }
        if self.exponent >= 0 {
            self.push_digits(&mut s, 0, n);
            let mut z: i64 = 0;
            while z < self.exponent
                invariant
                    0 <= z <= self.exponent,
                    s@ =~= sign + ds + zeros(z as nat),
                decreases self.exponent - z,
            {
                push_char(&mut s, '0');
                assert(zeros((z + 1) as nat) =~= zeros(z as nat).push('0'));
                z += 1;
            }
        } else if (n as i64) + self.exponent > 0 {
            let point = ((n as i64) + self.exponent) as usize;
            self.push_digits(&mut s, 0, point);
            push_char(&mut s, '.');
            self.push_digits(&mut s, point, n);
        } else {
            push_str(&mut s, "0.");
            proof {
                reveal_strlit("0.");
            }
            let missing: i64 = -self.exponent - n as i64;
            let mut z: i64 = 0;
            while z < missing
                invariant
                    0 <= z <= missing,
                    s@ =~= sign + seq!['0', '.'] + zeros(z as nat),
                decreases missing - z,
            {
                push_char(&mut s, '0');
                assert(zeros((z + 1) as nat) =~= zeros(z as nat).push('0'));
                z += 1;
            }
            self.push_digits(&mut s, 0, n);
        }
        assert(s@ =~= number_text(self@));
        s
    }

    /// Appends the characters of the digits from `from` to `to`.
    fn push_digits(&self, s: &mut String, from: usize, to: usize)
        requires
            self.wf(),
            from <= to <= self.digits@.len(),
        ensures
            final(s)@ == old(s)@ + digit_text(self.digits@).subrange(from as int, to as int),
    {
        let ghost start = old(s)@;
        let mut i = from;
        while i < to
            invariant
                from <= i <= to <= self.digits@.len(),
                self.wf(),
                s@ =~= start + digit_text(self.digits@).subrange(from as int, i as int),
            decreases to - i,
        {
            assert(self.digits@[i as int] < 10);
            push_char(s, digit_to_char(self.digits[i] as u64));
            i += 1;
        }
    }
}

} // verus!
