//! Numbers as they come out of a recogniser: normalising raw text to a
//! decimal token, and reading such a token as a fixed-point value.
//!
//! Values are held as signed integers counting millionths.

use crate::text::{
    char_is_digit, chars_of, is_digit, lemma_prefix_len_bounds, lemma_prefix_len_is, prefix_len,
    run_len, string_of,
};
use vstd::prelude::*;

verus! {

/// The predicate "is an ASCII digit".
pub open spec fn digit_pred() -> spec_fn(char) -> bool {
    |c: char| is_digit(c)
}

/// The predicate "is not a line feed".
pub open spec fn same_line_pred() -> spec_fn(char) -> bool {
    |c: char| c != '\n'
}

/// The predicate "cannot start a number".
pub open spec fn filler_pred() -> spec_fn(char) -> bool {
    |c: char| !(c == '-' || is_digit(c))
}

/// The predicate "is kept by normalisation".
pub open spec fn kept_pred() -> spec_fn(char) -> bool {
    |c: char| !is_separator(c)
}

/// The text before the first line feed.
pub open spec fn first_line(s: Seq<char>) -> Seq<char> {
    s.take(prefix_len(s, same_line_pred()) as int)
}

/// Characters that are removed: the apostrophe used as a thousands
/// separator, the degree sign and the space.
pub open spec fn is_separator(c: char) -> bool {
    c == '\'' || c == '\u{b0}' || c == ' '
}

/// A comma is a decimal point; letters that are commonly read in place of
/// a digit are replaced by that digit.
pub open spec fn corrected(c: char) -> char {
    if c == ',' {
        '.'
    } else if c == 'O' {
        '0'
    } else if c == 'l' || c == 'I' {
        '1'
    } else if c == 'S' {
        '5'
    } else {
        c
    }
}

/// `s` without separators, each remaining character corrected.
pub open spec fn normalized(s: Seq<char>) -> Seq<char> {
    s.filter(kept_pred()).map_values(|c: char| corrected(c))
}

/// 1 if `t` starts with a minus sign, else 0.
pub open spec fn sign_len(t: Seq<char>) -> nat {
    if t.len() > 0 && t[0] == '-' {
        1
    } else {
        0
    }
}

/// The number of digits after the optional sign.
pub open spec fn whole_len(t: Seq<char>) -> nat {
    run_len(t, sign_len(t) as int, digit_pred())
}

/// Whether a decimal point follows the whole digits.
pub open spec fn has_point(t: Seq<char>) -> bool {
    let dot = sign_len(t) + whole_len(t);
    dot < t.len() && t[dot as int] == '.'
}

/// The number of digits after the decimal point, 0 where there is none.
pub open spec fn fraction_len(t: Seq<char>) -> nat {
    if has_point(t) {
        run_len(t, (sign_len(t) + whole_len(t) + 1) as int, digit_pred())
    } else {
        0
    }
}

/// The length of the longest prefix of `t` of the form: an optional minus
/// sign, digits, and optionally a decimal point followed by digits.
pub open spec fn token_len(t: Seq<char>) -> nat {
    sign_len(t) + whole_len(t) + (if has_point(t) {
        1 + fraction_len(t)
    } else {
        0
    })
}

/// The first number-like token of `s`: it starts at the first minus sign or
/// digit and extends as far as `token_len` says. Empty where `s` has neither.
pub open spec fn first_number(s: Seq<char>) -> Seq<char> {
    let t = s.skip(prefix_len(s, filler_pred()) as int);
    t.take(token_len(t) as int)
}

/// What `clean_number` returns for the text `s`.
pub open spec fn clean_number_spec(s: Seq<char>) -> Seq<char> {
    first_number(normalized(first_line(s)))
}

proof fn lemma_normalized_push(s: Seq<char>, c: char)
    ensures
        normalized(s.push(c)) == if is_separator(c) {
            normalized(s)
        } else {
            normalized(s).push(corrected(c))
        },
{
    reveal(Seq::filter);
    let sp = s.push(c);
    assert(sp.drop_last() == s);
    assert(sp.last() == c);
    if is_separator(c) {
        assert(sp.filter(kept_pred()) == s.filter(kept_pred()));
    } else {
        assert(kept_pred()(c));
        assert(sp.filter(kept_pred()) == s.filter(kept_pred()).push(c));
        assert(normalized(sp) =~= normalized(s).push(corrected(c)));
    }
}

/// The normalised first line of `chars`.
fn normalize_line(chars: &Vec<char>) -> (out: Vec<char>)
    ensures
        out@ == normalized(first_line(chars@)),
{
    let mut out: Vec<char> = Vec::new();
    let mut i: usize = 0;
    proof {
        reveal(Seq::filter);
        assert(chars@.take(0) =~= Seq::<char>::empty());
        assert(normalized(Seq::<char>::empty()) =~= Seq::<char>::empty());
    }
    while i < chars.len() && chars[i] != '\n'
        invariant
            i <= chars.len(),
            forall|k: int| 0 <= k < i ==> #[trigger] chars@[k] != '\n',
            out@ == normalized(chars@.take(i as int)),
        decreases chars.len() - i,
    {
        let c = chars[i];
        proof {
            lemma_normalized_push(chars@.take(i as int), c);
            assert(chars@.take(i as int).push(c) == chars@.take(i + 1));
        }
        if !(c == '\'' || c == '\u{b0}' || c == ' ') {
            let d = if c == ',' {
                '.'
            } else if c == 'O' {
                '0'
            } else if c == 'l' || c == 'I' {
                '1'
            } else if c == 'S' {
                '5'
            } else {
                c
            };
            out.push(d);
        }
        i += 1;
    }
    proof {
        assert forall|k: int| 0 <= k < i implies same_line_pred()(#[trigger] chars@[k]) by {}
        lemma_prefix_len_is(chars@, same_line_pred(), i as int);
    }
    out
}

/// The end of the run of digits of `s` that starts at `from`.
fn scan_digits(s: &Vec<char>, from: usize) -> (end: usize)
    requires
        from <= s.len(),
    ensures
        end == from + run_len(s@, from as int, digit_pred()),
        end <= s.len(),
{
    let mut i: usize = from;
    while i < s.len() && char_is_digit(s[i])
        invariant
            from <= i <= s.len(),
            forall|k: int| from <= k < i ==> is_digit(#[trigger] s@[k]),
        decreases s.len() - i,
    {
        i += 1;
    }
    proof {
        let t = s@.skip(from as int);
        assert forall|k: int| 0 <= k < i - from implies digit_pred()(#[trigger] t[k]) by {
            assert(t[k] == s@[k + from]);
        }
        if i < s.len() {
            assert(t[i - from] == s@[i as int]);
        }
        lemma_prefix_len_is(t, digit_pred(), i - from);
    }
    i
}

/// Where the sign, the whole digits and the fraction of the token that
/// starts at `start` end.
struct Extent {
    sign_end: usize,
    whole_end: usize,
    point: bool,
    end: usize,
}

/// Measures the number-like token of `s` that starts at `start`.
fn token_extent(s: &Vec<char>, start: usize) -> (e: Extent)
    requires
        start <= s.len(),
    ensures
        e.sign_end == start + sign_len(s@.skip(start as int)),
        e.whole_end == e.sign_end + whole_len(s@.skip(start as int)),
        e.point == has_point(s@.skip(start as int)),
        e.end == start + token_len(s@.skip(start as int)),
        e.end == e.whole_end + (if e.point {
            1 + fraction_len(s@.skip(start as int))
        } else {
            0
        }),
        e.end <= s.len(),
{
    let ghost t = s@.skip(start as int);
    let sign_end: usize = if start < s.len() && s[start] == '-' {
        start + 1
    } else {
        start
    };
    let whole_end = scan_digits(s, sign_end);
    proof {
        assert(t.skip(sign_end - start) == s@.skip(sign_end as int));
    }
    if whole_end < s.len() && s[whole_end] == '.' {
        let end = scan_digits(s, whole_end + 1);
        proof {
            assert(t[whole_end - start] == s@[whole_end as int]);
            assert(t.skip(whole_end + 1 - start) == s@.skip(whole_end + 1));
        }
        Extent { sign_end, whole_end, point: true, end }
    } else {
        proof {
            if whole_end < s.len() {
                assert(t[whole_end - start] == s@[whole_end as int]);
            }
        }
        Extent { sign_end, whole_end, point: false, end: whole_end }
    }
}

/// Normalises raw recogniser output to a clean number string: the first
/// line is taken, apostrophes, degree signs and spaces are removed, a comma
/// becomes a decimal point, `O`, `l`, `I` and `S` become the digits they
/// resemble, and the first token made of an optional minus sign, digits and
/// at most one decimal point is returned. Text around it is discarded.
pub fn clean_number(text: &str) -> (r: String)
    ensures
        r@ == clean_number_spec(text@),
{
    let chars = chars_of(text);
    let s = normalize_line(&chars);
    let mut start: usize = 0;
    while start < s.len() && !(s[start] == '-' || char_is_digit(s[start]))
        invariant
            start <= s.len(),
            forall|k: int| 0 <= k < start ==> filler_pred()(#[trigger] s@[k]),
        decreases s.len() - start,
    {
        start += 1;
    }
    proof {
        lemma_prefix_len_is(s@, filler_pred(), start as int);
    }
    let e = token_extent(&s, start);
    proof {
        let t = s@.skip(start as int);
        assert(t.take(token_len(t) as int) == s@.subrange(start as int, e.end as int));
    }
    string_of(&s, start, e.end)
}

/// The predicate "is not a decimal point".
pub open spec fn before_point_pred() -> spec_fn(char) -> bool {
    |c: char| c != '.'
}

/// The number of characters after the first decimal point of `s`; 0 where
/// `s` has none.
pub open spec fn decimal_places(s: Seq<char>) -> nat {
    let p = prefix_len(s, before_point_pred());
    if p < s.len() {
        (s.len() - p - 1) as nat
    } else {
        0
    }
}

/// The number of ASCII digits in `s`.
pub open spec fn total_digits(s: Seq<char>) -> nat {
    s.filter(digit_pred()).len()
}

/// Number of digits after the decimal point in a numeric string
/// ("3.14" gives 2, "42" gives 0).
pub fn count_decimal_places(s: &str) -> (n: usize)
    ensures
        n == decimal_places(s@),
{
    let v = chars_of(s);
    let mut i: usize = 0;
    while i < v.len() && v[i] != '.'
        invariant
            i <= v.len(),
            forall|k: int| 0 <= k < i ==> before_point_pred()(#[trigger] v@[k]),
        decreases v.len() - i,
    {
        i += 1;
    }
    proof {
        lemma_prefix_len_is(v@, before_point_pred(), i as int);
    }
    if i < v.len() {
        v.len() - i - 1
    } else {
        0
    }
}

/// Total count of ASCII digit characters in a string ("3.14" gives 3,
/// "-007" gives 3).
pub fn count_total_digits(s: &str) -> (n: usize)
    ensures
        n == total_digits(s@),
{
    let v = chars_of(s);
    let mut n: usize = 0;
    let mut i: usize = 0;
    proof {
        reveal(Seq::filter);
        assert(v@.take(0) =~= Seq::<char>::empty());
    }
    while i < v.len()
        invariant
            i <= v.len(),
            n <= i,
            n == v@.take(i as int).filter(digit_pred()).len(),
        decreases v.len() - i,
    {
        proof {
            reveal(Seq::filter);
            assert(v@.take(i + 1).drop_last() == v@.take(i as int));
        }
        if char_is_digit(v[i]) {
            n += 1;
        }
        i += 1;
    }
    proof {
        assert(v@.take(v.len() as int) == v@);
    }
    n
}

/// The value of a digit character; 0 for any other character.
pub open spec fn digit_value(c: char) -> nat {
    if is_digit(c) {
        (c as u32 - 0x30) as nat
    } else {
        0
    }
}

/// The number that the digits of `s` write in base ten.
pub open spec fn digits_value(s: Seq<char>) -> nat
    decreases s.len(),
{
    if s.len() == 0 {
        0
    } else {
        digits_value(s.drop_last()) * 10 + digit_value(s.last())
    }
}

/// The digits of `f` read as a fraction whose first digit weighs `weight`,
/// the next a tenth of that, and so on; digits of weight below one are cut off.
pub open spec fn fraction_value(f: Seq<char>, weight: nat) -> nat
    decreases f.len(),
{
    if f.len() == 0 || weight == 0 {
        0
    } else {
        digit_value(f.first()) * weight + fraction_value(f.drop_first(), weight / 10)
    }
}

/// The digits of `t` between the sign and the decimal point.
pub open spec fn whole_digits(t: Seq<char>) -> Seq<char> {
    t.subrange(sign_len(t) as int, (sign_len(t) + whole_len(t)) as int)
}

/// The digits of `t` after the decimal point.
pub open spec fn fraction_digits(t: Seq<char>) -> Seq<char> {
    if has_point(t) {
        let from = sign_len(t) + whole_len(t) + 1;
        t.subrange(from as int, (from + fraction_len(t)) as int)
    } else {
        Seq::empty()
    }
}

/// `t` is a decimal number: an optional minus sign, digits, optionally a
/// decimal point and more digits, with at least one digit in all.
pub open spec fn is_number(t: Seq<char>) -> bool {
    token_len(t) == t.len() && whole_len(t) + fraction_len(t) > 0
}

/// The absolute value of the number `t` in millionths, digits beyond the
/// sixth decimal place cut off.
pub open spec fn magnitude_micros(t: Seq<char>) -> nat {
    digits_value(whole_digits(t)) * 1_000_000 + fraction_value(fraction_digits(t), 100_000)
}

/// The value of `t` in millionths, where `t` is a decimal number: the
/// magnitude is cut off after the sixth decimal place and held to at most
/// `i64::MAX`.
pub open spec fn reading_micros(t: Seq<char>) -> Option<int> {
    if is_number(t) {
        let m = if magnitude_micros(t) <= i64::MAX {
            magnitude_micros(t) as int
        } else {
            i64::MAX as int
        };
        Some(
            if sign_len(t) == 1 {
                -m
            } else {
                m
            },
        )
    } else {
        None
    }
}

/// A reading as contracts speak of it.
pub open spec fn micros_view(r: Option<i64>) -> Option<int> {
    match r {
        Some(v) => Some(v as int),
        None => None,
    }
}

/// The whole part at or above which a magnitude in millionths passes `i64::MAX`.
const WHOLE_CAP: u64 = 10_000_000_000_000;

/// The digits `s[from..to]` as a number, held to at most `WHOLE_CAP`.
fn whole_value(s: &Vec<char>, from: usize, to: usize) -> (acc: u64)
    requires
        from <= to <= s.len(),
        forall|k: int| from <= k < to ==> is_digit(#[trigger] s@[k]),
    ensures
        acc <= WHOLE_CAP,
        acc < WHOLE_CAP ==> acc == digits_value(s@.subrange(from as int, to as int)),
        acc == WHOLE_CAP ==> digits_value(s@.subrange(from as int, to as int)) >= WHOLE_CAP,
{
    let mut acc: u64 = 0;
    let mut i: usize = from;
    proof {
        assert(s@.subrange(from as int, from as int) =~= Seq::<char>::empty());
    }
    while i < to
        invariant
            from <= i <= to <= s.len(),
            forall|k: int| from <= k < to ==> is_digit(#[trigger] s@[k]),
            acc <= WHOLE_CAP,
            acc < WHOLE_CAP ==> acc == digits_value(s@.subrange(from as int, i as int)),
            acc == WHOLE_CAP ==> digits_value(s@.subrange(from as int, i as int)) >= WHOLE_CAP,
        decreases to - i,
    {
        let c = s[i];
        let d: u64 = (c as u32 - 0x30) as u64;
        proof {
            let next = s@.subrange(from as int, i + 1);
            assert(next.drop_last() == s@.subrange(from as int, i as int));
            assert(next.last() == c);
            assert(digit_value(c) == d);
        }
        if acc < WHOLE_CAP {
            let wide: u64 = acc * 10 + d;
            acc = if wide < WHOLE_CAP {
                wide
            } else {
                WHOLE_CAP
            };
        }
        i += 1;
    }
    acc
}

/// The digits `s[from..to]` as millionths of a unit, the first digit
/// standing for tenths.
fn fraction_micros(s: &Vec<char>, from: usize, to: usize) -> (f: u64)
    requires
        from <= to <= s.len(),
        forall|k: int| from <= k < to ==> is_digit(#[trigger] s@[k]),
    ensures
        f < 1_000_000,
        f == fraction_value(s@.subrange(from as int, to as int), 100_000),
{
    let ghost digits = s@.subrange(from as int, to as int);
    let mut f: u64 = 0;
    let mut w: u64 = 100_000;
    let mut i: usize = from;
    proof {
        assert(digits.skip(0) == digits);
    }
    while i < to && w > 0
        invariant
            from <= i <= to <= s.len(),
            digits == s@.subrange(from as int, to as int),
            forall|k: int| from <= k < to ==> is_digit(#[trigger] s@[k]),
            w == 100_000 || w == 10_000 || w == 1_000 || w == 100 || w == 10 || w == 1 || w == 0,
            f + 10 * w <= 1_000_000,
            f < 1_000_000,
            f + fraction_value(digits.skip(i - from), w as nat) == fraction_value(digits, 100_000),
        decreases to - i,
    {
        let c = s[i];
        let d: u64 = (c as u32 - 0x30) as u64;
        proof {
            let rest = digits.skip(i - from);
            assert(rest.first() == c);
            assert(rest.drop_first() == digits.skip(i + 1 - from));
            assert(digit_value(c) == d);
            assert(d <= 9);
            assert(d * w <= 9 * w) by (nonlinear_arith)
                requires
                    d <= 9,
            ;
        }
        f = f + d * w;
        w = w / 10;
        i += 1;
    }
    f
}

/// Reads `text` as a decimal number in millionths. `None` where `text` is
/// not an optional minus sign, digits and at most one decimal point, with
/// at least one digit.
pub fn parse_reading(text: &str) -> (r: Option<i64>)
    ensures
        micros_view(r) == reading_micros(text@),
{
    let s = chars_of(text);
    let e = token_extent(&s, 0);
    proof {
        assert(s@.skip(0) == s@);
    }
    let fraction_start: usize = if e.point {
        e.whole_end + 1
    } else {
        e.end
    };
    if e.end != s.len() || (e.whole_end - e.sign_end) + (e.end - fraction_start) == 0 {
        return None;
    }
    proof {
        lemma_run_is_digits(s@, e.sign_end as int);
        lemma_run_is_digits(s@, fraction_start as int);
    }
    let whole = whole_value(&s, e.sign_end, e.whole_end);
    let fraction = fraction_micros(&s, fraction_start, e.end);
    proof {
        if !e.point {
            assert(s@.subrange(fraction_start as int, e.end as int) =~= Seq::<char>::empty());
        }
    }
    let magnitude: u64 = if whole >= WHOLE_CAP {
        0x7fff_ffff_ffff_ffff
    } else {
        let exact: u64 = whole * 1_000_000 + fraction;
        if exact <= 0x7fff_ffff_ffff_ffff {
            exact
        } else {
            0x7fff_ffff_ffff_ffff
        }
    };
    if e.sign_end == 1 {
        Some(-(magnitude as i64))
    } else {
        Some(magnitude as i64)
    }
}

/// The characters of the run of digits that starts at `from` are digits.
proof fn lemma_run_is_digits(s: Seq<char>, from: int)
    requires
        0 <= from <= s.len(),
    ensures
        from + run_len(s, from, digit_pred()) <= s.len(),
        forall|k: int|
            from <= k < from + run_len(s, from, digit_pred()) ==> is_digit(#[trigger] s[k]),
{
    let t = s.skip(from);
    lemma_prefix_len_bounds(t, digit_pred());
    assert forall|k: int| from <= k < from + run_len(s, from, digit_pred()) implies is_digit(
        #[trigger] s[k],
    ) by {
        assert(digit_pred()(t[k - from]));
    }
}

/// A character that a number token can hold: a minus sign, a digit or a
/// decimal point.
pub open spec fn is_token_char(c: char) -> bool {
    c == '-' || c == '.' || is_digit(c)
}

/// The parts of the token at the head of `t` lie within `t`, one after
/// the other, and hold what they are named for.
proof fn lemma_token_parts(t: Seq<char>)
    ensures
        token_len(t) <= t.len(),
        sign_len(t) == 1 ==> t[0] == '-',
        forall|k: int|
            sign_len(t) <= k < sign_len(t) + whole_len(t) ==> is_digit(#[trigger] t[k]),
        sign_len(t) + whole_len(t) < t.len() ==> !is_digit(t[(sign_len(t) + whole_len(t)) as int]),
        has_point(t) ==> t[(sign_len(t) + whole_len(t)) as int] == '.',
        forall|k: int|
            sign_len(t) + whole_len(t) + 1 <= k < sign_len(t) + whole_len(t) + 1 + fraction_len(t)
                ==> is_digit(#[trigger] t[k]),
        has_point(t) && token_len(t) < t.len() ==> !is_digit(t[token_len(t) as int]),
{
    let sg = sign_len(t) as int;
    lemma_run_is_digits(t, sg);
    let rest = t.skip(sg);
    lemma_prefix_len_bounds(rest, digit_pred());
    let wl = whole_len(t) as int;
    if sg + wl < t.len() {
        assert(rest[wl] == t[sg + wl]);
        assert(!digit_pred()(rest[wl]));
    }
    if has_point(t) {
        let from = sg + wl + 1;
        lemma_run_is_digits(t, from);
        let tail = t.skip(from);
        lemma_prefix_len_bounds(tail, digit_pred());
        let fl = fraction_len(t) as int;
        if from + fl < t.len() {
            assert(tail[fl] == t[from + fl]);
            assert(!digit_pred()(tail[fl]));
        }
    }
}

/// The token at the head of `t`, taken alone, is a token from end to end.
proof fn lemma_token_of_token(t: Seq<char>)
    ensures
        token_len(t) <= t.len(),
        token_len(t.take(token_len(t) as int)) == token_len(t),
        forall|k: int| 0 <= k < token_len(t) ==> is_token_char(#[trigger] t[k]),
{
    lemma_token_parts(t);
    let n = token_len(t) as int;
    let c = t.take(n);
    let sg = sign_len(t) as int;
    let wl = whole_len(t) as int;
    assert(sign_len(c) == sg);
    let rest = c.skip(sg);
    assert forall|k: int| 0 <= k < wl implies digit_pred()(#[trigger] rest[k]) by {
        assert(rest[k] == t[sg + k]);
    }
    if wl < rest.len() {
        assert(rest[wl] == t[sg + wl]);
    }
    lemma_prefix_len_is(rest, digit_pred(), wl);
    assert(whole_len(c) == wl);
    if has_point(t) {
        assert(c[sg + wl] == t[sg + wl]);
        assert(has_point(c));
        let from = sg + wl + 1;
        let fl = fraction_len(t) as int;
        let tail = c.skip(from);
        assert forall|k: int| 0 <= k < fl implies digit_pred()(#[trigger] tail[k]) by {
            assert(tail[k] == t[from + k]);
        }
        assert(tail.len() == fl);
        lemma_prefix_len_is(tail, digit_pred(), fl);
        assert(fraction_len(c) == fl);
    } else {
        assert(!has_point(c));
    }
    assert forall|k: int| 0 <= k < n implies is_token_char(#[trigger] t[k]) by {
        if k < sg {
        } else if k < sg + wl {
        } else if k == sg + wl {
        } else {
            assert(sg + wl + 1 <= k < sg + wl + 1 + fraction_len(t));
        }
    }
}

/// Normalising leaves a text of token characters as it is.
proof fn lemma_normalized_token(c: Seq<char>)
    requires
        forall|k: int| 0 <= k < c.len() ==> is_token_char(#[trigger] c[k]),
    ensures
        first_line(c) == c,
        normalized(c) == c,
    decreases c.len(),
{
    assert forall|k: int| 0 <= k < c.len() implies same_line_pred()(#[trigger] c[k]) by {
        assert(is_token_char(c[k]));
    }
    lemma_prefix_len_is(c, same_line_pred(), c.len() as int);
    assert(c.take(c.len() as int) == c);
    if c.len() == 0 {
        reveal(Seq::filter);
        assert(normalized(c) =~= c);
    } else {
        let front = c.drop_last();
        assert forall|k: int| 0 <= k < front.len() implies is_token_char(#[trigger] front[k]) by {
            assert(front[k] == c[k]);
        }
        lemma_normalized_token(front);
        lemma_normalized_push(front, c.last());
        assert(front.push(c.last()) == c);
        assert(is_token_char(c[c.len() - 1]));
    }
}

/// Cleaning a clean number changes nothing: what `clean_number` returns is
/// made of a minus sign, digits and a decimal point alone, and is its own
/// clean number.
pub proof fn lemma_clean_number_idempotent(text: Seq<char>)
    ensures
        forall|k: int|
            0 <= k < clean_number_spec(text).len() ==> is_token_char(
                #[trigger] clean_number_spec(text)[k],
            ),
        clean_number_spec(clean_number_spec(text)) == clean_number_spec(text),
{
    let s = normalized(first_line(text));
    let start = prefix_len(s, filler_pred()) as int;
    lemma_prefix_len_bounds(s, filler_pred());
    let t = s.skip(start);
    let c = t.take(token_len(t) as int);
    lemma_token_of_token(t);
    assert forall|k: int| 0 <= k < c.len() implies is_token_char(#[trigger] c[k]) by {
        assert(c[k] == t[k]);
    }
    lemma_normalized_token(c);
    if c.len() > 0 {
        assert(c[0] == s[start]);
        assert(!filler_pred()(c[0]));
    }
    lemma_prefix_len_is(c, filler_pred(), 0);
    assert(c.skip(0) == c);
    assert(c.take(c.len() as int) == c);
}

} // verus!
