//! Turning user input into a time zone: IANA identifiers through the time
//! zone database, and UTC/GMT offsets through a normalised `UTC±HH:MM` form.
use vstd::prelude::*;

use crate::text::{
    is_ascii_text, lemma_upper_trim_ascii,
    lemma_find_str_some,
    all_white_space, ascii_lower, lemma_trim_ignores_padding, lemma_upper_trim_ignores_case,
    ascii_upper, ascii_upper_chars, byte_len, contains_str, lemma_byte_len_bounds, occurs_at,
    string_from, trim_end, trim_start, byte_len_up_to, chars_of, find_chars, find_str,
    is_ascii_digit, lemma_byte_len_prefix_monotone, skip_chars, starts_with, starts_with_chars,
    string_of, take_chars, trim, trim_str, utf8_width, utf8_width_of,
};
use crate::zones::{
    fixed_offset_zone, fixed_offset_zone_of, iana_name_of, lookup_zone, zone_iana_name,
};

verus! {

// ---------------------------------------------------------------------------
// Model
// ---------------------------------------------------------------------------

pub open spec fn utc_text() -> Seq<char> {
    seq!['U', 'T', 'C']
}

pub open spec fn gmt_text() -> Seq<char> {
    seq!['G', 'M', 'T']
}

pub open spec fn colon_text() -> Seq<char> {
    seq![':']
}

pub open spec fn all_digits(s: Seq<char>) -> bool {
    forall|i: int| 0 <= i < s.len() ==> is_ascii_digit(#[trigger] s[i])
}

pub open spec fn digit_value(c: char) -> int {
    (c as u32) - ('0' as u32)
}

/// Decimal value of a string of digits.
pub open spec fn digits_value(s: Seq<char>) -> int
    decreases s.len(),
{
    if s.len() == 0 {
        0
    } else {
        digits_value(s.drop_last()) * 10 + digit_value(s.last())
    }
}

/// The digits of `s` once a leading `+` is dropped.
pub open spec fn unsigned_digits(s: Seq<char>) -> Seq<char> {
    if s.len() > 0 && s[0] == '+' {
        s.drop_first()
    } else {
        s
    }
}

/// `<u8 as FromStr>::from_str`: an optional `+` followed by one or more
/// decimal digits whose value fits in a `u8`.
pub open spec fn parse_u8(s: Seq<char>) -> Option<u8> {
    let d = unsigned_digits(s);
    if d.len() > 0 && all_digits(d) && digits_value(d) <= 255 {
        Some(digits_value(d) as u8)
    } else {
        None
    }
}

/// An hour field: at most two bytes, parsed as a `u8`.
pub open spec fn parse_up_to_two(s: Seq<char>) -> Option<u8> {
    if byte_len(s) > 2 {
        None
    } else {
        parse_u8(s)
    }
}

/// A minute field: exactly two bytes, parsed as a `u8`.
pub open spec fn parse_exactly_two(s: Seq<char>) -> Option<u8> {
    if byte_len(s) != 2 {
        None
    } else {
        parse_u8(s)
    }
}

/// Hours and minutes of `H:MM`/`HH:MM`, split at the colon at `i`.
#[verifier::opaque]
pub open spec fn colon_parts(s: Seq<char>, i: int) -> Option<(u8, u8)> {
    match (parse_up_to_two(s.take(i)), parse_exactly_two(s.skip(i + 1))) {
        (Some(h), Some(m)) => Some((h, m)),
        _ => None,
    }
}

/// Hours and minutes of `H`, `HH` or `HHMM` (no colon).
#[verifier::opaque]
pub open spec fn compact_parts(s: Seq<char>) -> Option<(u8, u8)> {
    if byte_len(s) == 1 || byte_len(s) == 2 {
        match parse_up_to_two(s) {
            Some(h) => Some((h, 0u8)),
            None => None,
        }
    } else if byte_len(s) == 4 {
        match (parse_exactly_two(s.take(2)), parse_exactly_two(s.skip(2))) {
            (Some(h), Some(m)) => Some((h, m)),
            _ => None,
        }
    } else {
        None
    }
}

/// Hours and minutes before their ranges are checked.
pub open spec fn raw_offset_parts(s: Seq<char>) -> Option<(u8, u8)> {
    if s.len() == 0 {
        None
    } else {
        match find_str(s, colon_text()) {
            Some(i) => colon_parts(s, i),
            None => compact_parts(s),
        }
    }
}

/// Hours and minutes of an offset written after its sign: `H`, `HH`, `H:MM`,
/// `HH:MM` or `HHMM`, with hours at most 23 and minutes at most 59.
#[verifier::opaque]
pub open spec fn offset_parts(s: Seq<char>) -> Option<(u8, u8)> {
    match raw_offset_parts(s) {
        Some((h, m)) => if h <= 23 && m <= 59 {
            Some((h, m))
        } else {
            None
        },
        None => None,
    }
}

/// Splitting a four-byte offset without a colon at byte 2 would cut a
/// character in two; the split panics there.
#[verifier::opaque]
pub open spec fn offset_parts_panics(s: Seq<char>) -> bool {
    &&& find_str(s, colon_text()) is None
    &&& byte_len(s) == 4
    &&& !(utf8_width(s[0]) == 2 || (utf8_width(s[0]) == 1 && utf8_width(s[1]) == 1))
}

pub open spec fn digit_char(d: int) -> char {
    (48 + d) as char
}

/// `format!("{:02}", n)` for `n < 100`.
pub open spec fn two_digits(n: u8) -> Seq<char> {
    seq![digit_char((n / 10) as int), digit_char((n % 10) as int)]
}

/// The normalised identifier `UTC±HH:MM`.
pub open spec fn offset_label(sign: char, h: u8, m: u8) -> Seq<char> {
    utc_text() + seq![sign] + two_digits(h) + colon_text() + two_digits(m)
}

/// The part of an upper-cased input after an optional `UTC` or `GMT`.
pub open spec fn offset_body(upper: Seq<char>) -> Seq<char> {
    if starts_with(upper, utc_text()) || starts_with(upper, gmt_text()) {
        upper.skip(3)
    } else {
        upper
    }
}

pub open spec fn input_body(input: Seq<char>) -> Seq<char> {
    offset_body(ascii_upper(trim(input)))
}

/// What `normalize_offset_id` returns: `UTC` for a bare `UTC`/`GMT`, and
/// `UTC±HH:MM` for a signed offset.
pub open spec fn normalized_offset(input: Seq<char>) -> Option<Seq<char>> {
    let body = input_body(input);
    if body.len() == 0 {
        Some(utc_text())
    } else if body[0] == '+' || body[0] == '-' {
        match offset_parts(body.drop_first()) {
            Some((h, m)) => Some(offset_label(body[0], h, m)),
            None => None,
        }
    } else {
        None
    }
}

/// The inputs on which normalising an offset panics (see
/// `offset_parts_panics`).
pub open spec fn normalize_panics(input: Seq<char>) -> bool {
    let body = input_body(input);
    body.len() > 0 && (body[0] == '+' || body[0] == '-') && offset_parts_panics(body.drop_first())
}

/// Seconds east of UTC denoted by a normalised identifier.
pub open spec fn normalized_seconds(s: Seq<char>) -> Option<int> {
    if s == utc_text() {
        Some(0)
    } else if starts_with(s, utc_text()) && s.len() > 3 {
        let sign: int = if s[3] == '-' {
            -1
        } else {
            1
        };
        match offset_parts(s.skip(4)) {
            Some((h, m)) => Some(sign * (h * 3600 + m * 60)),
            None => None,
        }
    } else {
        None
    }
}

/// A normalised identifier can be parsed back without a panic.
pub open spec fn normalized_parse_safe(s: Seq<char>) -> bool {
    s == utc_text() || (starts_with(s, utc_text()) && s.len() > 3 && utf8_width(s[3]) == 1
        && !offset_parts_panics(s.skip(4)))
}

// ---------------------------------------------------------------------------
// Digits
// ---------------------------------------------------------------------------

proof fn lemma_digits_value_nonneg(s: Seq<char>)
    requires
        all_digits(s),
    ensures
        digits_value(s) >= 0,
    decreases s.len(),
{
    if s.len() > 0 {
        lemma_digits_value_nonneg(s.drop_last());
    }
}

proof fn lemma_digits_value_prefix(s: Seq<char>, k: int)
    requires
        all_digits(s),
        0 <= k <= s.len(),
    ensures
        digits_value(s.take(k)) <= digits_value(s),
    decreases s.len() - k,
{
    if k < s.len() {
        lemma_digits_value_prefix(s, k + 1);
        assert(s.take(k + 1).drop_last() =~= s.take(k));
        lemma_digits_value_nonneg(s.take(k));
        assert(all_digits(s.take(k)));
    } else {
        assert(s.take(k) =~= s);
    }
}

/// `<u8 as FromStr>::from_str` on characters.
fn parse_u8_chars(s: &Vec<char>) -> (r: Option<u8>)
    ensures
        r == parse_u8(s@),
{
    let start: usize = if s.len() > 0 && s[0] == '+' {
        1
    } else {
        0
    };
    let ghost d = unsigned_digits(s@);
    assert(d =~= s@.skip(start as int));
    if start == s.len() {
        return None;
    }
    let mut value: u32 = 0;
    let mut i: usize = start;
    while i < s.len()
        invariant
            start <= i <= s.len(),
            start < s.len(),
            d == s@.skip(start as int),
            d == unsigned_digits(s@),
            all_digits(s@.subrange(start as int, i as int)),
            value == digits_value(s@.subrange(start as int, i as int)),
            value <= 255,
        decreases s.len() - i,
    {
        let c = s[i];
        assert(d[(i - start) as int] == c);
        if !('0' <= c && c <= '9') {
            assert(!is_ascii_digit(d[(i - start) as int]));
            assert(!all_digits(d));
            return None;
        }
        let ghost prev = s@.subrange(start as int, i as int);
        let ghost next = s@.subrange(start as int, i + 1);
        assert(next.drop_last() =~= prev);
        assert(next.last() == c);
        assert(all_digits(next));
        assert(digits_value(next) == digits_value(prev) * 10 + digit_value(c));
        value = value * 10 + ((c as u32) - ('0' as u32));
        i = i + 1;
        if value > 255 {
            proof {
                assert(d.take((i - start) as int) =~= next);
                if all_digits(d) {
                    lemma_digits_value_prefix(d, (i - start) as int);
                }
            }
            return None;
        }
    }
    assert(s@.subrange(start as int, s.len() as int) =~= d);
    Some(value as u8)
}

/// `parse_one_or_two_digits`: an hour field of at most two bytes.
fn parse_one_or_two_digits(s: &Vec<char>) -> (r: Option<u8>)
    ensures
        r == parse_up_to_two(s@),
{
    match byte_len_up_to(s, 2) {
        None => None,
        Some(_) => parse_u8_chars(s),
    }
}

/// `parse_two_digits`: a minute field of exactly two bytes.
fn parse_two_digits(s: &Vec<char>) -> (r: Option<u8>)
    ensures
        r == parse_exactly_two(s@),
{
    match byte_len_up_to(s, 2) {
        Some(n) => if n == 2 {
            parse_u8_chars(s)
        } else {
            None
        },
        None => None,
    }
}

// ---------------------------------------------------------------------------
// Offsets
// ---------------------------------------------------------------------------

proof fn lemma_byte_len_single(s: Seq<char>)
    requires
        s.len() == 1,
    ensures
        byte_len(s) == utf8_width(s[0]),
{
    assert(s.drop_last() =~= Seq::<char>::empty());
    assert(byte_len(s.drop_last()) == 0);
}

proof fn lemma_byte_len_take_two(s: Seq<char>)
    requires
        s.len() >= 2,
    ensures
        byte_len(s.take(2)) == utf8_width(s[0]) + utf8_width(s[1]),
{
    let t = s.take(2);
    assert(t.drop_last() =~= s.take(1));
    lemma_byte_len_single(s.take(1));
    assert(byte_len(t) == byte_len(t.drop_last()) + utf8_width(t.last()));
}

/// Hours and minutes split at the colon at position `i`.
fn parse_colon_form(s: &Vec<char>, i: usize) -> (r: Option<(u8, u8)>)
    requires
        i < s.len(),
    ensures
        r == colon_parts(s@, i as int),
{
    reveal(colon_parts);
    let hours_text = take_chars(s, i);
    let minutes_text = skip_chars(s, i + 1);
    match (parse_one_or_two_digits(&hours_text), parse_two_digits(&minutes_text)) {
        (Some(h), Some(m)) => Some((h, m)),
        _ => None,
    }
}

/// Hours and minutes written without a colon.
fn parse_compact_form(s: &Vec<char>) -> (r: Option<(u8, u8)>)
    requires
        s.len() > 0,
        !(byte_len(s@) == 4 && !(utf8_width(s@[0]) == 2 || (utf8_width(s@[0]) == 1 && utf8_width(
            s@[1],
        ) == 1))),
    ensures
        r == compact_parts(s@),
{
    reveal(compact_parts);
    match byte_len_up_to(s, 4) {
        Some(n) => {
            if n == 1 || n == 2 {
                match parse_one_or_two_digits(s) {
                    Some(h) => Some((h, 0u8)),
                    None => None,
                }
            } else if n == 4 {
                if s.len() >= 2 && utf8_width_of(s[0]) == 1 && utf8_width_of(s[1]) == 1 {
                    let hours_text = take_chars(s, 2);
                    let minutes_text = skip_chars(s, 2);
                    match (parse_two_digits(&hours_text), parse_two_digits(&minutes_text)) {
                        (Some(h), Some(m)) => Some((h, m)),
                        _ => None,
                    }
                } else {
                    proof {
                        if s@.len() >= 2 {
                            assert(utf8_width(s@[0]) == 2);
                            lemma_byte_len_take_two(s@);
                        } else {
                            lemma_byte_len_single(s@);
                        }
                    }
                    None
                }
            } else {
                None
            }
        },
        None => None,
    }
}

/// `parse_offset_parts`: hours and minutes written after the sign.
fn parse_offset_parts(s: &Vec<char>) -> (r: Option<(u8, u8)>)
    requires
        !offset_parts_panics(s@),
    ensures
        r == offset_parts(s@),
        r matches Some((h, m)) ==> h <= 23 && m <= 59,
{
    reveal(offset_parts);
    if s.len() == 0 {
        return None;
    }
    let colon: Vec<char> = vec![':'];
    assert(colon@ =~= colon_text());
    let found = find_chars(s, &colon);
    let raw: Option<(u8, u8)> = match found {
        Some(i) => {
            let r = parse_colon_form(s, i);
            assert(r == raw_offset_parts(s@));
            r
        },
        None => {
            proof {
                reveal(offset_parts_panics);
            }
            let r = parse_compact_form(s);
            assert(r == raw_offset_parts(s@));
            r
        },
    };
    match raw {
        Some((h, m)) => if h <= 23 && m <= 59 {
            Some((h, m))
        } else {
            None
        },
        None => None,
    }
}

/// Appends the two decimal digits of `n`.
pub(crate) fn push_two_digits(out: &mut Vec<char>, n: u8)
    requires
        n < 100,
    ensures
        final(out)@ == old(out)@ + two_digits(n),
{
    let tens = ((n / 10) + 48) as char;
    let ones = ((n % 10) + 48) as char;
    out.push(tens);
    out.push(ones);
    assert(final(out)@ =~= old(out)@ + two_digits(n));
}

/// `offset_body`: drops a leading `UTC` or `GMT`.
fn strip_zone_prefix(upper: &Vec<char>) -> (r: Vec<char>)
    ensures
        r@ == offset_body(upper@),
{
    let utc: Vec<char> = vec!['U', 'T', 'C'];
    let gmt: Vec<char> = vec!['G', 'M', 'T'];
    assert(utc@ =~= utc_text());
    assert(gmt@ =~= gmt_text());
    if starts_with_chars(upper, &utc) || starts_with_chars(upper, &gmt) {
        skip_chars(upper, 3)
    } else {
        skip_chars(upper, 0)
    }
}

/// Whether the characters after the sign make the split at byte 2 panic.
fn offset_parts_would_panic(rest: &Vec<char>) -> (r: bool)
    ensures
        r == offset_parts_panics(rest@),
{
    reveal(offset_parts_panics);
    let colon: Vec<char> = vec![':'];
    assert(colon@ =~= colon_text());
    if find_chars(rest, &colon).is_some() {
        return false;
    }
    match byte_len_up_to(rest, 4) {
        Some(n) => {
            if n != 4 {
                return false;
            }
            proof {
                lemma_byte_len_bounds(rest@);
            }
            let w0 = utf8_width_of(rest[0]);
            if w0 == 2 {
                return false;
            }
            if w0 == 1 && rest.len() >= 2 && utf8_width_of(rest[1]) == 1 {
                return false;
            }
            proof {
                if w0 == 1 && rest.len() < 2 {
                    lemma_byte_len_single(rest@);
                }
            }
            true
        },
        None => false,
    }
}

/// Whether `normalize_offset_id(input)` would panic: true exactly on the
/// inputs that `normalize_panics` describes.
pub fn normalize_offset_panics(input: &str) -> (r: bool)
    ensures
        r == normalize_panics(input@),
{
    let upper = ascii_upper_chars(&chars_of(trim_str(input)));
    let body = strip_zone_prefix(&upper);
    if body.len() == 0 || (body[0] != '+' && body[0] != '-') {
        return false;
    }
    let rest = skip_chars(&body, 1);
    assert(rest@ =~= body@.drop_first());
    offset_parts_would_panic(&rest)
}

/// Normalises an offset identifier such as `UTC+1`, `gmt-8`, `+0530` or
/// `-03:30` to `UTC±HH:MM`; a bare `UTC` or `GMT` (or nothing) becomes `UTC`.
pub fn normalize_offset_id(input: &str) -> (r: Option<String>)
    requires
        !normalize_panics(input@),
    ensures
        match r {
            Some(s) => normalized_offset(input@) == Some(s@),
            None => normalized_offset(input@) is None,
        },
{
    let upper = ascii_upper_chars(&chars_of(trim_str(input)));
    let body = strip_zone_prefix(&upper);
    if body.len() == 0 {
        let utc: Vec<char> = vec!['U', 'T', 'C'];
        assert(utc@ =~= utc_text());
        return Some(string_of(&utc));
    }
    let sign = body[0];
    if sign != '+' && sign != '-' {
        return None;
    }
    let rest = skip_chars(&body, 1);
    assert(rest@ =~= body@.drop_first());
    match parse_offset_parts(&rest) {
        Some((h, m)) => {
            let mut out: Vec<char> = vec!['U', 'T', 'C', sign];
            assert(out@ =~= utc_text() + seq![sign]);
            push_two_digits(&mut out, h);
            out.push(':');
            push_two_digits(&mut out, m);
            assert(out@ =~= offset_label(sign, h, m));
            Some(string_of(&out))
        },
        None => None,
    }
}

/// Seconds east of UTC of a normalised identifier.
fn normalized_offset_seconds(input: &Vec<char>) -> (r: Option<i32>)
    requires
        normalized_parse_safe(input@),
    ensures
        match r {
            Some(x) => normalized_seconds(input@) == Some(x as int),
            None => normalized_seconds(input@) is None,
        },
{
    let utc: Vec<char> = vec!['U', 'T', 'C'];
    assert(utc@ =~= utc_text());
    let starts = starts_with_chars(input, &utc);
    if input.len() == 3 && starts {
        assert(input@ =~= utc_text());
        return Some(0);
    }
    proof {
        if input@ == utc_text() {
            assert(input@.take(3) =~= input@);
        }
    }
    if !starts || input.len() <= 3 {
        return None;
    }
    let sign: i32 = if input[3] == '-' {
        -1
    } else {
        1
    };
    let rest = skip_chars(input, 4);
    match parse_offset_parts(&rest) {
        Some((h, m)) => {
            let total: i32 = (h as i32) * 3600 + (m as i32) * 60;
            Some(sign * total)
        },
        None => None,
    }
}

/// Seconds east of UTC denoted by a normalised identifier (`UTC` or
/// `UTC±HH:MM`).
fn parse_normalized_offset(input: &str) -> (r: Option<i32>)
    requires
        normalized_parse_safe(input@),
    ensures
        match r {
            Some(x) => normalized_seconds(input@) == Some(x as int),
            None => normalized_seconds(input@) is None,
        },
{
    let chars = chars_of(input);
    normalized_offset_seconds(&chars)
}

// ---------------------------------------------------------------------------
// Round trip of normalised identifiers
// ---------------------------------------------------------------------------

proof fn lemma_two_digits_parse(n: u8)
    requires
        n < 100,
    ensures
        byte_len(two_digits(n)) == 2,
        all_digits(two_digits(n)),
        two_digits(n)[0] != '+',
        parse_u8(two_digits(n)) == Some(n),
        parse_up_to_two(two_digits(n)) == Some(n),
        parse_exactly_two(two_digits(n)) == Some(n),
{
    let t = two_digits(n);
    let a = (n / 10) as int;
    let b = (n % 10) as int;
    assert(0 <= a <= 9 && 0 <= b <= 9);
    assert(digit_char(a) as u32 == 48 + a);
    assert(digit_char(b) as u32 == 48 + b);
    let u = t.drop_last();
    assert(u =~= seq![digit_char(a)]);
    lemma_byte_len_single(u);
    assert(u.drop_last() =~= Seq::<char>::empty());
    assert(digits_value(u.drop_last()) == 0);
    assert(u.last() == digit_char(a));
    assert(digits_value(u) == digits_value(u.drop_last()) * 10 + digit_value(u.last()));
    assert(digits_value(u) == a);
    assert(digits_value(t) == a * 10 + b);
    assert(unsigned_digits(t) == t);
}

/// The text after the sign of a normalised identifier: `HH:MM`.
pub open spec fn label_tail(h: u8, m: u8) -> Seq<char> {
    two_digits(h) + colon_text() + two_digits(m)
}

proof fn lemma_label_tail_parts(h: u8, m: u8)
    requires
        h <= 23,
        m <= 59,
    ensures
        offset_parts(label_tail(h, m)) == Some((h, m)),
        !offset_parts_panics(label_tail(h, m)),
{
    let t = label_tail(h, m);
    lemma_two_digits_parse(h);
    lemma_two_digits_parse(m);
    assert(t.len() == 5);
    assert(t.subrange(2, 3) =~= colon_text());
    assert(occurs_at(t, colon_text(), 2));
    assert(!occurs_at(t, colon_text(), 0)) by {
        assert(t.subrange(0, 1)[0] == t[0]);
    }
    assert(!occurs_at(t, colon_text(), 1)) by {
        assert(t.subrange(1, 2)[0] == t[1]);
    }
    reveal(find_str);
    assert(contains_str(t, colon_text()));
    let c = choose|k: int| occurs_at(t, colon_text(), k) && forall|j: int| 0 <= j < k ==> !occurs_at(t, colon_text(), j);
    assert(occurs_at(t, colon_text(), c) && forall|j: int| 0 <= j < c ==> !occurs_at(t, colon_text(), j));
    assert(c == 2) by {
        if c < 2 {
            assert(c == 0 || c == 1);
        }
        if c > 2 {
            assert(!occurs_at(t, colon_text(), 2));
        }
    }
    assert(find_str(t, colon_text()) == Some(2int));
    assert(t.take(2) =~= two_digits(h));
    assert(t.skip(3) =~= two_digits(m));
    reveal(colon_parts);
    reveal(offset_parts);
    reveal(offset_parts_panics);
}

/// Every normalised identifier parses back, to the offset it denotes.
pub proof fn lemma_normalized_parses_back(input: Seq<char>)
    requires
        normalized_offset(input) is Some,
    ensures
        normalized_parse_safe(normalized_offset(input).unwrap()),
        normalized_seconds(normalized_offset(input).unwrap()) matches Some(x) && -86_340 <= x
            <= 86_340,
{
    let body = input_body(input);
    let n = normalized_offset(input).unwrap();
    if body.len() == 0 {
        assert(n == utc_text());
    } else {
        let sign = body[0];
        reveal(offset_parts);
        let (h, m) = offset_parts(body.drop_first()).unwrap();
        assert(h <= 23 && m <= 59);
        lemma_label_tail_parts(h, m);
        assert(n =~= utc_text() + seq![sign] + label_tail(h, m));
        assert(starts_with(n, utc_text())) by {
            assert(n.take(3) =~= utc_text());
        }
        assert(n.skip(4) =~= label_tail(h, m));
        assert(n[3] == sign);
        assert(utf8_width(n[3]) == 1);
        let hh = h as int;
        let mm = m as int;
        assert(0 <= hh * 3600 + mm * 60 <= 86_340) by (nonlinear_arith)
            requires
                0 <= hh <= 23,
                0 <= mm <= 59,
        ;
        let total = hh * 3600 + mm * 60;
        if sign == '-' {
            assert(normalized_seconds(n) == Some(-1 * total));
        } else {
            assert(normalized_seconds(n) == Some(1 * total));
        }
    }
}

// ---------------------------------------------------------------------------
// Resolution
// ---------------------------------------------------------------------------

/// A time zone together with its canonical identifier. A zone resolved from
/// an offset identifier carries its offset in seconds east of UTC; a zone
/// found in the database carries none. `source` records the trimmed text it
/// was resolved from.
pub struct ResolvedTimezone {
    pub canonical_id: String,
    pub timezone: jiff::tz::TimeZone,
    pub offset_seconds: Option<i32>,
    pub source: Ghost<Seq<char>>,
}

/// `res` was resolved from the trimmed text `text`: where it was resolved as
/// an offset, its identifier, offset and zone are those of the offset; where
/// the database gave the zone, its identifier is the zone's IANA name, or
/// `text` when the zone carries none.
pub open spec fn resolved_text(res: ResolvedTimezone, text: Seq<char>) -> bool {
    &&& res.source@ == text
    &&& match res.offset_seconds {
        Some(x) => offset_resolution(text) == Some((res.canonical_id@, x as int)) && res.timezone
            == fixed_offset_zone_of(x as int),
        None => res.canonical_id@ == database_id(res.timezone, text),
    }
}

/// The identifier of a zone the database gave for `text`: its IANA name, or
/// `text` when it carries none.
pub open spec fn database_id(zone: jiff::tz::TimeZone, text: Seq<char>) -> Seq<char> {
    match iana_name_of(zone) {
        Some(n) => n,
        None => text,
    }
}

/// The identifier and offset that the offset text `raw` resolves to when the
/// database does not know it.
pub open spec fn offset_resolution(raw: Seq<char>) -> Option<(Seq<char>, int)> {
    match normalized_offset(raw) {
        Some(n) => match normalized_seconds(n) {
            Some(x) => Some((n, x)),
            None => None,
        },
        None => None,
    }
}

/// What `resolve_timezone` makes of the trimmed input `raw` once the time zone
/// database has answered: `found` holds the zone it returned and that zone's
/// IANA name, or nothing when the lookup failed.
pub fn resolve_after_lookup(raw: &str, found: Option<(jiff::tz::TimeZone, Option<String>)>) -> (r:
    Option<ResolvedTimezone>)
    requires
        !normalize_panics(raw@),
    ensures
        match found {
            Some((zone, name)) => r matches Some(res) && res.timezone == zone && res.source@ == raw@
                && res.offset_seconds is None && res.canonical_id@ == (match name {
                Some(n) => n@,
                None => raw@,
            }),
            None => match offset_resolution(raw@) {
                Some((n, x)) => r matches Some(res) && res.canonical_id@ == n && res.source@ == raw@
                    && res.offset_seconds == Some(x as i32) && res.timezone == fixed_offset_zone_of(x),
                None => r is None,
            },
        },
{
    match found {
        Some((zone, name)) => {
            let canonical_id = match name {
                Some(n) => n,
                None => string_from(raw),
            };
            Some(
                ResolvedTimezone {
                    canonical_id,
                    timezone: zone,
                    offset_seconds: None,
                    source: Ghost(raw@),
                },
            )
        },
        None => {
            let normalized = match normalize_offset_id(raw) {
                Some(n) => n,
                None => {
                    return None;
                },
            };
            proof {
                lemma_normalized_parses_back(raw@);
            }
            let seconds = match parse_normalized_offset(normalized.as_str()) {
                Some(x) => x,
                None => {
                    return None;
                },
            };
            match fixed_offset_zone(seconds) {
                Ok(zone) => Some(
                    ResolvedTimezone {
                        canonical_id: normalized,
                        timezone: zone,
                        offset_seconds: Some(seconds),
                        source: Ghost(raw@),
                    },
                ),
                Err(_) => None,
            }
        },
    }
}

/// Resolves user input to a time zone: an IANA identifier found in the time
/// zone database (in any ASCII case), or else a UTC/GMT offset.
///
/// Blank input resolves to nothing; input that normalises as an offset always
/// resolves. Whether a name is found in the database depends on the database
/// installed, so which of the two paths answered is not stated here; see
/// `resolve_after_lookup` for what each answer gives.
pub fn resolve_timezone(input: &str) -> (r: Option<ResolvedTimezone>)
    requires
        !normalize_panics(trim(input@)),
    ensures
        trim(input@).len() == 0 ==> r is None,
        trim(input@).len() > 0 && normalized_offset(trim(input@)) is Some ==> r is Some,
        r is Some ==> trim(input@).len() > 0,
        r matches Some(res) ==> resolved_text(res, trim(input@)),
{
    let raw = trim_str(input);
    if raw.unicode_len() == 0 {
        return None;
    }
    let found = match lookup_zone(raw) {
        Ok(zone) => {
            let name = zone_iana_name(&zone);
            Some((zone, name))
        },
        Err(_) => None,
    };
    proof {
        if normalized_offset(raw@) is Some {
            lemma_normalized_parses_back(raw@);
        }
    }
    resolve_after_lookup(raw, found)
}

// ---------------------------------------------------------------------------
// Laws
// ---------------------------------------------------------------------------

proof fn lemma_label_chars(sign: char, h: u8, m: u8)
    requires
        sign == '+' || sign == '-',
        h <= 23,
        m <= 59,
    ensures
        trim(offset_label(sign, h, m)) == offset_label(sign, h, m),
        ascii_upper(offset_label(sign, h, m)) == offset_label(sign, h, m),
{
    let n = offset_label(sign, h, m);
    let a = (h / 10) as int;
    let b = (h % 10) as int;
    let c = (m / 10) as int;
    let d = (m % 10) as int;
    assert(n =~= seq!['U', 'T', 'C', sign, digit_char(a), digit_char(b), ':', digit_char(c), digit_char(d)]);
    assert(digit_char(a) as u32 == 48 + a);
    assert(digit_char(b) as u32 == 48 + b);
    assert(digit_char(c) as u32 == 48 + c);
    assert(digit_char(d) as u32 == 48 + d);
    assert(trim_start(n) == n);
    assert(trim_end(n) == n);
    assert(ascii_upper(n) =~= n);
}

/// A normalised `UTC±HH:MM` identifier normalises to itself, without a panic.
pub proof fn lemma_offset_label_normalizes_to_itself(sign: char, h: u8, m: u8)
    requires
        sign == '+' || sign == '-',
        h <= 23,
        m <= 59,
    ensures
        normalized_offset(offset_label(sign, h, m)) == Some(offset_label(sign, h, m)),
        !normalize_panics(offset_label(sign, h, m)),
{
    let n = offset_label(sign, h, m);
    lemma_label_chars(sign, h, m);
    lemma_label_tail_parts(h, m);
    assert(n.take(3) =~= utc_text());
    let body = input_body(n);
    assert(body =~= seq![sign] + label_tail(h, m));
    assert(body.drop_first() =~= label_tail(h, m));
}

/// The bare `UTC` normalises to itself, without a panic.
pub proof fn lemma_utc_normalizes_to_itself()
    ensures
        normalized_offset(utc_text()) == Some(utc_text()),
        !normalize_panics(utc_text()),
{
    let u = utc_text();
    assert(trim_start(u) == u);
    assert(trim_end(u) == u);
    assert(ascii_upper(u) =~= u);
    assert(u.take(3) =~= u);
    assert(input_body(u) =~= Seq::<char>::empty());
}

/// Normalising is idempotent: what `normalize_offset_id` returns normalises
/// to itself, and normalising it again cannot panic.
pub proof fn lemma_normalize_idempotent(input: Seq<char>)
    requires
        normalized_offset(input) is Some,
    ensures
        normalized_offset(normalized_offset(input).unwrap()) == normalized_offset(input),
        !normalize_panics(normalized_offset(input).unwrap()),
{
    let body = input_body(input);
    if body.len() == 0 {
        lemma_utc_normalizes_to_itself();
    } else {
        reveal(offset_parts);
        let (h, m) = offset_parts(body.drop_first()).unwrap();
        lemma_offset_label_normalizes_to_itself(body[0], h, m);
    }
}

/// Resolving the identifier that an offset resolved to, where the database
/// does not know it either, gives the same identifier and the same offset.
pub proof fn lemma_offset_resolution_round_trip(raw: Seq<char>)
    requires
        offset_resolution(raw) is Some,
    ensures
        offset_resolution(offset_resolution(raw).unwrap().0) == offset_resolution(raw),
        !normalize_panics(trim(offset_resolution(raw).unwrap().0)),
        trim(offset_resolution(raw).unwrap().0) == offset_resolution(raw).unwrap().0,
{
    lemma_normalize_idempotent(raw);
    lemma_normalized_is_trimmed(raw);
}

proof fn lemma_normalized_is_trimmed(raw: Seq<char>)
    requires
        normalized_offset(raw) is Some,
    ensures
        trim(normalized_offset(raw).unwrap()) == normalized_offset(raw).unwrap(),
{
    let body = input_body(raw);
    if body.len() == 0 {
        let u = utc_text();
        assert(trim_start(u) == u);
        assert(trim_end(u) == u);
    } else {
        reveal(offset_parts);
        let (h, m) = offset_parts(body.drop_first()).unwrap();
        lemma_label_chars(body[0], h, m);
    }
}

/// Normalising an offset sees neither ASCII case nor surrounding whitespace:
/// lowercasing the input, or padding it with whitespace, changes neither the
/// result nor whether it panics.
pub proof fn lemma_normalized_offset_ignores_case_and_padding(
    input: Seq<char>,
    before: Seq<char>,
    after: Seq<char>,
)
    requires
        all_white_space(before),
        all_white_space(after),
    ensures
        normalized_offset(ascii_lower(input)) == normalized_offset(input),
        normalize_panics(ascii_lower(input)) == normalize_panics(input),
        normalized_offset(before + input + after) == normalized_offset(input),
        normalize_panics(before + input + after) == normalize_panics(input),
{
    lemma_upper_trim_ignores_case(input);
    lemma_trim_ignores_padding(before, input, after);
    assert(input_body(ascii_lower(input)) == input_body(input));
    assert(input_body(before + input + after) == input_body(input));
}

/// `r` is written `H`, `HH`, `H:MM`, `HH:MM` or `HHMM` in ASCII digits, for
/// `h` hours and `m` minutes (`m` is 0 when no minutes are written).
pub open spec fn offset_written(r: Seq<char>, h: int, m: int) -> bool {
    ||| (r.len() == 1 || r.len() == 2) && all_digits(r) && h == digits_value(r) && m == 0
    ||| (r.len() == 4 || r.len() == 5) && r[r.len() - 3] == ':' && all_digits(r.take(r.len() - 3))
        && all_digits(r.skip(r.len() - 2)) && h == digits_value(r.take(r.len() - 3)) && m
        == digits_value(r.skip(r.len() - 2))
    ||| r.len() == 4 && all_digits(r) && h == digits_value(r.take(2)) && m == digits_value(r.skip(2))
}

proof fn lemma_byte_len_digits(s: Seq<char>)
    requires
        all_digits(s),
    ensures
        byte_len(s) == s.len(),
    decreases s.len(),
{
    if s.len() > 0 {
        assert(all_digits(s.drop_last()));
        lemma_byte_len_digits(s.drop_last());
    }
}

/// One or two digits read as a field.
proof fn lemma_digit_field(s: Seq<char>)
    requires
        1 <= s.len() <= 2,
        all_digits(s),
    ensures
        0 <= digits_value(s) <= 99,
        byte_len(s) == s.len(),
        parse_u8(s) == Some(digits_value(s) as u8),
        parse_up_to_two(s) == Some(digits_value(s) as u8),
        s.len() == 2 ==> parse_exactly_two(s) == Some(digits_value(s) as u8),
{
    lemma_byte_len_digits(s);
    assert(is_ascii_digit(s[0]));
    assert(unsigned_digits(s) == s);
    let d = s.drop_last();
    assert(is_ascii_digit(s.last()));
    assert(0 <= digit_value(s.last()) <= 9);
    assert(digits_value(s) == digits_value(d) * 10 + digit_value(s.last()));
    if s.len() == 1 {
        assert(d =~= Seq::<char>::empty());
        assert(digits_value(d) == 0);
    } else {
        assert(d.drop_last() =~= Seq::<char>::empty());
        assert(digits_value(d.drop_last()) == 0);
        assert(d.last() == s[0]);
        assert(0 <= digit_value(s[0]) <= 9);
        assert(digits_value(d) == digits_value(d.drop_last()) * 10 + digit_value(d.last()));
        assert(digits_value(d) == digit_value(s[0]));
    }
}

proof fn lemma_no_colon(s: Seq<char>)
    requires
        all_digits(s),
    ensures
        find_str(s, colon_text()) is None,
{
    reveal(find_str);
    if contains_str(s, colon_text()) {
        let k = choose|k: int| occurs_at(s, colon_text(), k);
        assert(s.subrange(k, k + 1)[0] == s[k]);
        assert(is_ascii_digit(s[k]));
    }
}

proof fn lemma_first_colon(s: Seq<char>, c: int)
    requires
        0 <= c < s.len(),
        s[c] == ':',
        all_digits(s.take(c)),
    ensures
        find_str(s, colon_text()) == Some(c),
{
    reveal(find_str);
    assert(s.subrange(c, c + 1) =~= colon_text());
    assert(occurs_at(s, colon_text(), c));
    let k = choose|k: int| occurs_at(s, colon_text(), k) && forall|j: int| 0 <= j < k ==> !occurs_at(s, colon_text(), j);
    assert forall|j: int| 0 <= j < c implies !occurs_at(s, colon_text(), j) by {
        if occurs_at(s, colon_text(), j) {
            assert(s.subrange(j, j + 1)[0] == s[j]);
            assert(s.take(c)[j] == s[j]);
            assert(is_ascii_digit(s.take(c)[j]));
        }
    }
    assert(k == c) by {
        if k > c {
            assert(!occurs_at(s, colon_text(), c));
        }
    }
}

/// The offset after a sign, written in one of its forms, gives its hours and
/// minutes when they are in range, and nothing otherwise; it never panics.
proof fn lemma_offset_written_parts(r: Seq<char>, h: int, m: int)
    requires
        offset_written(r, h, m),
    ensures
        offset_parts(r) == (if h <= 23 && m <= 59 {
            Some((h as u8, m as u8))
        } else {
            None
        }),
        !offset_parts_panics(r),
{
    reveal(offset_parts);
    reveal(offset_parts_panics);
    reveal(colon_parts);
    reveal(compact_parts);
    if (r.len() == 1 || r.len() == 2) && all_digits(r) && h == digits_value(r) && m == 0 {
        lemma_no_colon(r);
        lemma_digit_field(r);
    } else if (r.len() == 4 || r.len() == 5) && r[r.len() - 3] == ':' && all_digits(
        r.take(r.len() - 3),
    ) && all_digits(r.skip(r.len() - 2)) && h == digits_value(r.take(r.len() - 3)) && m
        == digits_value(r.skip(r.len() - 2)) {
        let c = r.len() - 3;
        lemma_first_colon(r, c);
        assert(r.skip(c + 1) =~= r.skip(r.len() - 2));
        lemma_digit_field(r.take(c));
        lemma_digit_field(r.skip(c + 1));
    } else {
        lemma_no_colon(r);
        lemma_byte_len_digits(r);
        assert(all_digits(r.take(2)));
        assert(all_digits(r.skip(2)));
        lemma_digit_field(r.take(2));
        lemma_digit_field(r.skip(2));
        assert(is_ascii_digit(r[0]) && is_ascii_digit(r[1]));
    }
}

/// `normalize_offset_id` on an input that reads, once trimmed, upper-cased
/// and stripped of a leading `UTC` or `GMT`, as a sign followed by `H`, `HH`,
/// `H:MM`, `HH:MM` or `HHMM`: `UTC±HH:MM` when the hours are at most 23 and
/// the minutes at most 59, nothing otherwise; it never panics there.
pub proof fn lemma_normalized_offset_forms(input: Seq<char>, sign: char, r: Seq<char>, h: int, m: int)
    requires
        input_body(input) == seq![sign] + r,
        sign == '+' || sign == '-',
        offset_written(r, h, m),
    ensures
        normalized_offset(input) == (if h <= 23 && m <= 59 {
            Some(offset_label(sign, h as u8, m as u8))
        } else {
            None
        }),
        !normalize_panics(input),
{
    let body = input_body(input);
    assert(body[0] == sign);
    assert(body.drop_first() =~= r);
    lemma_offset_written_parts(r, h, m);
}

/// Conversely, an input that normalises to an offset, and does not read as
/// nothing, is a sign followed by `H`, `HH`, `H:MM`, `HH:MM` or `HHMM` giving
/// those hours and minutes, when no `+` follows the sign (the fields are read
/// as `u8`, which would also take a leading `+`) and normalising does not
/// panic.
pub proof fn lemma_normalized_offset_only_forms(input: Seq<char>)
    requires
        normalized_offset(input) is Some,
        !normalize_panics(input),
        input_body(input).len() > 0,
        !input_body(input).drop_first().contains('+'),
    ensures
        ({
            let body = input_body(input);
            let (h, m) = offset_parts(body.drop_first()).unwrap();
            &&& body[0] == '+' || body[0] == '-'
            &&& offset_parts(body.drop_first()) is Some
            &&& offset_written(body.drop_first(), h as int, m as int)
        }),
{
    let r = input_body(input).drop_first();
    reveal(offset_parts);
    match find_str(r, colon_text()) {
        Some(i) => lemma_colon_parts_written(r, i),
        None => lemma_compact_parts_written(r),
    }
}

proof fn lemma_colon_parts_written(r: Seq<char>, i: int)
    requires
        find_str(r, colon_text()) == Some(i),
        colon_parts(r, i) is Some,
        !r.contains('+'),
    ensures
        offset_written(r, colon_parts(r, i).unwrap().0 as int, colon_parts(r, i).unwrap().1 as int),
{
    reveal(colon_parts);
    lemma_find_str_some(r, colon_text(), i);
    assert(r.subrange(i, i + 1)[0] == r[i]);
    let a = r.take(i);
    let b = r.skip(i + 1);
    lemma_part_without_plus(r, 0, i);
    lemma_part_without_plus(r, i + 1, r.len() as int);
    assert(r.subrange(0, i) =~= a);
    assert(r.subrange(i + 1, r.len() as int) =~= b);
    assert(parse_up_to_two(a) is Some && parse_exactly_two(b) is Some);
    lemma_field_digits(a);
    lemma_field_digits(b);
    assert(a.len() == i && 1 <= i <= 2);
    assert(b.len() == 2);
    assert(r[i] == colon_text()[0]);
    assert(r.take(r.len() - 3) =~= a);
    assert(r.skip(r.len() - 2) =~= b);
    let (h, m) = colon_parts(r, i).unwrap();
    assert(h as int == digits_value(a));
    assert(m as int == digits_value(b));
}

proof fn lemma_compact_parts_written(r: Seq<char>)
    requires
        find_str(r, colon_text()) is None,
        r.len() > 0,
        compact_parts(r) is Some,
        !offset_parts_panics(r),
        !r.contains('+'),
    ensures
        offset_written(r, compact_parts(r).unwrap().0 as int, compact_parts(r).unwrap().1 as int),
{
    reveal(compact_parts);
    if byte_len(r) == 1 || byte_len(r) == 2 {
        lemma_field_digits(r);
        let (h, m) = compact_parts(r).unwrap();
        assert(h as int == digits_value(r) && m == 0);
    } else {
        reveal(offset_parts_panics);
        assert(r.len() >= 2) by {
            if r.len() == 1 {
                lemma_byte_len_single(r);
            }
        }
        let a = r.take(2);
        let b = r.skip(2);
        lemma_part_without_plus(r, 0, 2);
        lemma_part_without_plus(r, 2, r.len() as int);
        assert(r.subrange(0, 2) =~= a);
        assert(r.subrange(2, r.len() as int) =~= b);
        lemma_field_digits(a);
        lemma_field_digits(b);
        assert(a.len() == 2 && b.len() == 2 && r.len() == 4);
        assert forall|k: int| 0 <= k < r.len() implies is_ascii_digit(#[trigger] r[k]) by {
            if k < 2 {
                assert(a[k] == r[k]);
            } else {
                assert(b[k - 2] == r[k]);
            }
        }
        let (h, m) = compact_parts(r).unwrap();
        assert(h as int == digits_value(a) && m as int == digits_value(b));
    }
}

proof fn lemma_part_without_plus(s: Seq<char>, i: int, j: int)
    requires
        0 <= i <= j <= s.len(),
        !s.contains('+'),
    ensures
        !s.subrange(i, j).contains('+'),
{
    if s.subrange(i, j).contains('+') {
        let k = choose|k: int| 0 <= k < j - i && s.subrange(i, j)[k] == '+';
        assert(s[i + k] == '+');
    }
}

/// A field that parses as `u8`, and holds no `+`, is its digits, as many as
/// its bytes.
proof fn lemma_field_digits(s: Seq<char>)
    requires
        parse_u8(s) is Some,
        !s.contains('+'),
    ensures
        all_digits(s),
        s.len() > 0,
        byte_len(s) == s.len(),
        parse_u8(s) == Some(digits_value(s) as u8),
        0 <= digits_value(s) <= 255,
{
    if s.len() > 0 && s[0] == '+' {
        assert(s.contains('+'));
    }
    assert(unsigned_digits(s) == s);
    lemma_byte_len_digits(s);
    lemma_digits_value_nonneg(s);
}

/// Normalising an offset never panics on ASCII input.
pub proof fn lemma_ascii_input_never_panics(input: Seq<char>)
    requires
        is_ascii_text(input),
    ensures
        !normalize_panics(input),
{
    lemma_upper_trim_ascii(input);
    let u = ascii_upper(trim(input));
    let body = input_body(input);
    let off: int = if starts_with(u, utc_text()) || starts_with(u, gmt_text()) {
        3
    } else {
        0
    };
    assert forall|k: int| 0 <= k < body.len() implies utf8_width(#[trigger] body[k]) == 1 by {
        assert(body[k] == u[k + off]);
    }
    if body.len() > 0 {
        reveal(offset_parts_panics);
        let r = body.drop_first();
        if r.len() == 1 {
            lemma_byte_len_single(r);
        } else if r.len() >= 2 {
            assert(r[0] == body[1] && r[1] == body[2]);
        }
    }
}

} // verus!
