//! Character-level text model shared by the resolver and the search index.
//!
//! Strings are modelled by their views, `Seq<char>`.
use vstd::prelude::*;

verus! {

// ---------------------------------------------------------------------------
// Character classes
// ---------------------------------------------------------------------------

/// The characters that carry the Unicode `White_Space` property, which is
/// what `char::is_whitespace` and `str::trim` go by.
pub open spec fn is_white_space(c: char) -> bool {
    let u = c as u32;
    ||| 0x09 <= u <= 0x0D
    ||| u == 0x20
    ||| u == 0x85
    ||| u == 0xA0
    ||| u == 0x1680
    ||| 0x2000 <= u <= 0x200A
    ||| u == 0x2028
    ||| u == 0x2029
    ||| u == 0x202F
    ||| u == 0x205F
    ||| u == 0x3000
}

pub open spec fn is_ascii_digit(c: char) -> bool {
    '0' <= c <= '9'
}

pub open spec fn is_ascii_lower(c: char) -> bool {
    'a' <= c <= 'z'
}

pub open spec fn is_ascii_upper(c: char) -> bool {
    'A' <= c <= 'Z'
}

pub open spec fn is_ascii_alpha(c: char) -> bool {
    is_ascii_lower(c) || is_ascii_upper(c)
}

pub open spec fn is_ascii_alnum(c: char) -> bool {
    is_ascii_alpha(c) || is_ascii_digit(c)
}

/// `char::to_ascii_uppercase`.
pub open spec fn upper_char(c: char) -> char {
    if is_ascii_lower(c) {
        ((c as u32) - 32) as char
    } else {
        c
    }
}

/// `char::to_ascii_lowercase`.
pub open spec fn lower_char(c: char) -> char {
    if is_ascii_upper(c) {
        ((c as u32) + 32) as char
    } else {
        c
    }
}

/// `str::to_ascii_uppercase`.
pub open spec fn ascii_upper(s: Seq<char>) -> Seq<char> {
    s.map_values(|c: char| upper_char(c))
}

/// Number of bytes in the UTF-8 encoding of `c`.
pub open spec fn utf8_width(c: char) -> nat {
    let u = c as u32;
    if u < 0x80 {
        1
    } else if u < 0x800 {
        2
    } else if u < 0x10000 {
        3
    } else {
        4
    }
}

/// Number of bytes in the UTF-8 encoding of `s` (what `str::len` returns).
pub open spec fn byte_len(s: Seq<char>) -> nat
    decreases s.len(),
{
    if s.len() == 0 {
        0
    } else {
        byte_len(s.drop_last()) + utf8_width(s.last())
    }
}

// ---------------------------------------------------------------------------
// Trimming
// ---------------------------------------------------------------------------

/// `s` without its leading whitespace.
pub open spec fn trim_start(s: Seq<char>) -> Seq<char>
    decreases s.len(),
{
    if s.len() > 0 && is_white_space(s[0]) {
        trim_start(s.drop_first())
    } else {
        s
    }
}

/// `s` without its trailing whitespace.
pub open spec fn trim_end(s: Seq<char>) -> Seq<char>
    decreases s.len(),
{
    if s.len() > 0 && is_white_space(s.last()) {
        trim_end(s.drop_last())
    } else {
        s
    }
}

/// `str::trim`: `s` without leading and trailing whitespace.
pub open spec fn trim(s: Seq<char>) -> Seq<char> {
    trim_end(trim_start(s))
}

// ---------------------------------------------------------------------------
// Searching
// ---------------------------------------------------------------------------

pub open spec fn starts_with(s: Seq<char>, prefix: Seq<char>) -> bool {
    prefix.len() <= s.len() && s.take(prefix.len() as int) == prefix
}

/// `needle` occurs in `s` starting at position `i`.
pub open spec fn occurs_at(s: Seq<char>, needle: Seq<char>, i: int) -> bool {
    0 <= i && i + needle.len() <= s.len() && s.subrange(i, i + needle.len()) == needle
}

/// `str::contains` with a string pattern.
pub open spec fn contains_str(s: Seq<char>, needle: Seq<char>) -> bool {
    exists|i: int| occurs_at(s, needle, i)
}

/// Position of the first occurrence of `needle` in `s`, if any.
#[verifier::opaque]
pub open spec fn find_str(s: Seq<char>, needle: Seq<char>) -> Option<int> {
    if contains_str(s, needle) {
        Some(choose|i: int| occurs_at(s, needle, i) && forall|j: int| 0 <= j < i ==> !occurs_at(s, needle, j))
    } else {
        None
    }
}

/// `needle` can be read in `hay` by skipping characters of `hay`.
pub open spec fn is_subseq(needle: Seq<char>, hay: Seq<char>) -> bool
    decreases hay.len(),
{
    if needle.len() == 0 {
        true
    } else if hay.len() == 0 {
        false
    } else if needle[0] == hay[0] {
        is_subseq(needle.drop_first(), hay.drop_first())
    } else {
        is_subseq(needle, hay.drop_first())
    }
}

/// `idx` lists positions of `hay`, strictly increasing, that spell `needle`.
pub open spec fn spells_at(needle: Seq<char>, hay: Seq<char>, idx: Seq<int>) -> bool {
    &&& idx.len() == needle.len()
    &&& forall|k: int| 0 <= k < idx.len() ==> 0 <= #[trigger] idx[k] < hay.len() && hay[idx[k]] == needle[k]
    &&& forall|k: int, l: int| 0 <= k < l < idx.len() ==> #[trigger] idx[k] < #[trigger] idx[l]
}

proof fn lemma_subseq_gives_indices(needle: Seq<char>, hay: Seq<char>) -> (idx: Seq<int>)
    requires
        is_subseq(needle, hay),
    ensures
        spells_at(needle, hay, idx),
    decreases hay.len(),
{
    if needle.len() == 0 {
        Seq::empty()
    } else if needle[0] == hay[0] {
        let rest = lemma_subseq_gives_indices(needle.drop_first(), hay.drop_first());
        let idx = seq![0int] + Seq::new(rest.len(), |k: int| rest[k] + 1);
        assert forall|k: int| 0 <= k < idx.len() implies 0 <= #[trigger] idx[k] < hay.len()
            && hay[idx[k]] == needle[k] by {
            if k > 0 {
                assert(idx[k] == rest[k - 1] + 1);
            }
        }
        assert forall|k: int, l: int| 0 <= k < l < idx.len() implies #[trigger] idx[k]
            < #[trigger] idx[l] by {
            assert(idx[l] == rest[l - 1] + 1);
            if k > 0 {
                assert(idx[k] == rest[k - 1] + 1);
            }
        }
        idx
    } else {
        let rest = lemma_subseq_gives_indices(needle, hay.drop_first());
        let idx = Seq::new(rest.len(), |k: int| rest[k] + 1);
        assert forall|k: int| 0 <= k < idx.len() implies 0 <= #[trigger] idx[k] < hay.len()
            && hay[idx[k]] == needle[k] by {
            assert(idx[k] == rest[k] + 1);
        }
        assert forall|k: int, l: int| 0 <= k < l < idx.len() implies #[trigger] idx[k]
            < #[trigger] idx[l] by {
            assert(idx[k] == rest[k] + 1 && idx[l] == rest[l] + 1);
        }
        idx
    }
}

proof fn lemma_indices_give_subseq(needle: Seq<char>, hay: Seq<char>, idx: Seq<int>)
    requires
        spells_at(needle, hay, idx),
    ensures
        is_subseq(needle, hay),
    decreases hay.len(),
{
    if needle.len() > 0 {
        assert(0 <= idx[0] < hay.len());
        if needle[0] == hay[0] {
            let rest = Seq::new((idx.len() - 1) as nat, |k: int| idx[k + 1] - 1);
            assert forall|k: int| 0 <= k < rest.len() implies 0 <= #[trigger] rest[k] < hay.drop_first().len()
                && hay.drop_first()[rest[k]] == needle.drop_first()[k] by {
                assert(idx[0] < idx[k + 1]);
            }
            assert forall|k: int, l: int| 0 <= k < l < rest.len() implies #[trigger] rest[k]
                < #[trigger] rest[l] by {
                assert(idx[k + 1] < idx[l + 1]);
            }
            lemma_indices_give_subseq(needle.drop_first(), hay.drop_first(), rest);
        } else {
            assert(idx[0] != 0);
            let rest = Seq::new(idx.len(), |k: int| idx[k] - 1);
            assert forall|k: int| 0 <= k < rest.len() implies 0 <= #[trigger] rest[k] < hay.drop_first().len()
                && hay.drop_first()[rest[k]] == needle[k] by {
                if k > 0 {
                    assert(idx[0] < idx[k]);
                }
            }
            assert forall|k: int, l: int| 0 <= k < l < rest.len() implies #[trigger] rest[k]
                < #[trigger] rest[l] by {
                assert(idx[k] < idx[l]);
            }
            lemma_indices_give_subseq(needle, hay.drop_first(), rest);
        }
    }
}

/// `needle` is a subsequence of `hay` exactly when strictly increasing
/// positions of `hay` spell it.
pub proof fn lemma_subseq_iff_increasing_indices(needle: Seq<char>, hay: Seq<char>)
    ensures
        is_subseq(needle, hay) <==> exists|idx: Seq<int>| spells_at(needle, hay, idx),
{
    if is_subseq(needle, hay) {
        let idx = lemma_subseq_gives_indices(needle, hay);
        assert(spells_at(needle, hay, idx));
    }
    if exists|idx: Seq<int>| spells_at(needle, hay, idx) {
        let idx = choose|idx: Seq<int>| spells_at(needle, hay, idx);
        lemma_indices_give_subseq(needle, hay, idx);
    }
}

/// A subsequence of a subsequence is a subsequence.
pub proof fn lemma_subseq_trans(a: Seq<char>, b: Seq<char>, c: Seq<char>)
    requires
        is_subseq(a, b),
        is_subseq(b, c),
    ensures
        is_subseq(a, c),
{
    let i1 = lemma_subseq_gives_indices(a, b);
    let i2 = lemma_subseq_gives_indices(b, c);
    let idx = Seq::new(i1.len(), |k: int| i2[i1[k]]);
    assert forall|k: int| 0 <= k < idx.len() implies 0 <= #[trigger] idx[k] < c.len() && c[idx[k]]
        == a[k] by {
        assert(0 <= i1[k] < b.len());
        assert(0 <= i2[i1[k]] < c.len());
    }
    assert forall|k: int, l: int| 0 <= k < l < idx.len() implies #[trigger] idx[k]
        < #[trigger] idx[l] by {
        assert(i1[k] < i1[l]);
        assert(0 <= i1[l] < b.len());
        assert(i2[i1[k]] < i2[i1[l]]);
    }
    lemma_indices_give_subseq(a, c, idx);
}

/// Text that occurs in `hay` is a subsequence of it.
pub proof fn lemma_contains_is_subseq(hay: Seq<char>, needle: Seq<char>)
    requires
        contains_str(hay, needle),
    ensures
        is_subseq(needle, hay),
{
    let i = choose|i: int| occurs_at(hay, needle, i);
    let idx = Seq::new(needle.len(), |k: int| i + k);
    assert forall|k: int| 0 <= k < idx.len() implies 0 <= #[trigger] idx[k] < hay.len() && hay[idx[k]]
        == needle[k] by {
        assert(hay.subrange(i, i + needle.len())[k] == hay[i + k]);
    }
    lemma_indices_give_subseq(needle, hay, idx);
}

/// What occurs in text that occurs in `s` occurs in `s`.
pub proof fn lemma_contains_trans(s: Seq<char>, t: Seq<char>, u: Seq<char>)
    requires
        contains_str(s, t),
        contains_str(t, u),
    ensures
        contains_str(s, u),
{
    let i = choose|i: int| occurs_at(s, t, i);
    let j = choose|j: int| occurs_at(t, u, j);
    assert(s.subrange(i + j, i + j + u.len()) =~= u) by {
        assert forall|k: int| 0 <= k < u.len() implies s.subrange(i + j, i + j + u.len())[k] == u[k] by {
            assert(t.subrange(j, j + u.len())[k] == t[j + k]);
            assert(s.subrange(i, i + t.len())[j + k] == s[i + j + k]);
        }
    }
    assert(occurs_at(s, u, i + j));
}

/// Lexicographic order is antisymmetric.
pub proof fn lemma_text_le_antisym(a: Seq<char>, b: Seq<char>)
    requires
        text_le(a, b),
        text_le(b, a),
    ensures
        a == b,
    decreases a.len(),
{
    if a.len() > 0 && b.len() > 0 {
        if a[0] == b[0] {
            lemma_text_le_antisym(a.drop_first(), b.drop_first());
            assert(a =~= seq![a[0]] + a.drop_first());
            assert(b =~= seq![b[0]] + b.drop_first());
        }
    } else {
        assert(a =~= b);
    }
}

// ---------------------------------------------------------------------------
// Ordering
// ---------------------------------------------------------------------------

/// Lexicographic order by code point, which is the order of `String`
/// (UTF-8 preserves code point order byte by byte).
pub open spec fn text_le(a: Seq<char>, b: Seq<char>) -> bool
    decreases a.len(),
{
    if a.len() == 0 {
        true
    } else if b.len() == 0 {
        false
    } else if a[0] != b[0] {
        (a[0] as u32) < (b[0] as u32)
    } else {
        text_le(a.drop_first(), b.drop_first())
    }
}

pub proof fn lemma_text_le_total(a: Seq<char>, b: Seq<char>)
    ensures
        text_le(a, b) || text_le(b, a),
    decreases a.len(),
{
    if a.len() > 0 && b.len() > 0 {
        if a[0] == b[0] {
            lemma_text_le_total(a.drop_first(), b.drop_first());
        } else {
            lemma_char_u32_injective(a[0], b[0]);
        }
    }
}

pub proof fn lemma_char_u32_injective(a: char, b: char)
    requires
        a != b,
    ensures
        (a as u32) != (b as u32),
{
    vstd::utf8::char_u32_cast(a, a as u32);
    vstd::utf8::char_u32_cast(b, b as u32);
}

pub proof fn lemma_text_le_refl(a: Seq<char>)
    ensures
        text_le(a, a),
    decreases a.len(),
{
    if a.len() > 0 {
        lemma_text_le_refl(a.drop_first());
    }
}

pub proof fn lemma_text_le_trans(a: Seq<char>, b: Seq<char>, c: Seq<char>)
    requires
        text_le(a, b),
        text_le(b, c),
    ensures
        text_le(a, c),
    decreases a.len(),
{
    if a.len() > 0 && b.len() > 0 && c.len() > 0 && a[0] == b[0] && b[0] == c[0] {
        lemma_text_le_trans(a.drop_first(), b.drop_first(), c.drop_first());
    }
}

// ---------------------------------------------------------------------------
// Lowercasing
// ---------------------------------------------------------------------------

/// What `str::to_lowercase` returns for a string (full Unicode lowercase
/// mapping).
pub uninterp spec fn unicode_lowercase(s: Seq<char>) -> Seq<char>;

/// Every character is ASCII.
pub open spec fn is_ascii_text(s: Seq<char>) -> bool {
    forall|i: int| 0 <= i < s.len() ==> (#[trigger] s[i] as u32) < 128
}

/// Calls `str::to_lowercase`. Its result is taken as the name
/// `unicode_lowercase` of the argument. Of the Unicode mapping only this is
/// claimed: empty text stays empty, and ASCII text has `A`–`Z` lowercased and
/// every other character left as it is (std documents the mapping of each
/// character, with the one context rule, for a final sigma, touching no ASCII
/// text).
#[verifier::external_body]
pub(crate) fn to_lowercase(s: &str) -> (r: String)
    ensures
        r@ == unicode_lowercase(s@),
        s@.len() == 0 ==> r@.len() == 0,
        is_ascii_text(s@) ==> r@ == s@.map_values(|c: char| lower_char(c)),
{
    s.to_lowercase()
}

// ---------------------------------------------------------------------------
// Executable helpers
// ---------------------------------------------------------------------------

/// Whether `c` is whitespace, as `char::is_whitespace` decides it.
pub fn white_space(c: char) -> (r: bool)
    ensures
        r == is_white_space(c),
{
    let u = c as u32;
    (0x09 <= u && u <= 0x0D) || u == 0x20 || u == 0x85 || u == 0xA0 || u == 0x1680 || (0x2000
        <= u && u <= 0x200A) || u == 0x2028 || u == 0x2029 || u == 0x202F || u == 0x205F || u
        == 0x3000
}

pub fn ascii_alnum(c: char) -> (r: bool)
    ensures
        r == is_ascii_alnum(c),
{
    ('a' <= c && c <= 'z') || ('A' <= c && c <= 'Z') || ('0' <= c && c <= '9')
}

pub fn ascii_alpha(c: char) -> (r: bool)
    ensures
        r == is_ascii_alpha(c),
{
    ('a' <= c && c <= 'z') || ('A' <= c && c <= 'Z')
}

pub fn to_upper_char(c: char) -> (r: char)
    ensures
        r == upper_char(c),
{
    if 'a' <= c && c <= 'z' {
        let u = (c as u32) - 32;
        char_from_ascii(u)
    } else {
        c
    }
}

pub fn to_lower_char(c: char) -> (r: char)
    ensures
        r == lower_char(c),
{
    if 'A' <= c && c <= 'Z' {
        let u = (c as u32) + 32;
        char_from_ascii(u)
    } else {
        c
    }
}

/// The ASCII character with code `u`.
fn char_from_ascii(u: u32) -> (r: char)
    requires
        u < 128,
    ensures
        r == u as char,
        r as u32 == u,
{
    let b = u as u8;
    b as char
}

pub fn utf8_width_of(c: char) -> (r: usize)
    ensures
        r == utf8_width(c),
{
    let u = c as u32;
    if u < 0x80 {
        1
    } else if u < 0x800 {
        2
    } else if u < 0x10000 {
        3
    } else {
        4
    }
}

pub proof fn lemma_byte_len_bounds(s: Seq<char>)
    ensures
        s.len() <= byte_len(s) <= 4 * s.len(),
    decreases s.len(),
{
    if s.len() > 0 {
        lemma_byte_len_bounds(s.drop_last());
    }
}

/// `str::len` of `s`, in bytes, or `None` once it is known to exceed `limit`.
pub fn byte_len_up_to(s: &Vec<char>, limit: usize) -> (r: Option<usize>)
    requires
        limit < usize::MAX - 4,
    ensures
        match r {
            Some(n) => n == byte_len(s@) && n <= limit,
            None => byte_len(s@) > limit,
        },
{
    let mut total: usize = 0;
    let mut i: usize = 0;
    while i < s.len()
        invariant
            i <= s.len(),
            total == byte_len(s@.take(i as int)),
            total <= limit,
            limit < usize::MAX - 4,
        decreases s.len() - i,
    {
        assert(s@.take(i as int + 1).drop_last() =~= s@.take(i as int));
        total = total + utf8_width_of(s[i]);
        i = i + 1;
        if total > limit {
            proof {
                lemma_byte_len_prefix_monotone(s@, i as int);
            }
            return None;
        }
    }
    assert(s@.take(s.len() as int) =~= s@);
    Some(total)
}

pub proof fn lemma_byte_len_prefix_monotone(s: Seq<char>, k: int)
    requires
        0 <= k <= s.len(),
    ensures
        byte_len(s.take(k)) <= byte_len(s),
    decreases s.len() - k,
{
    if k < s.len() {
        lemma_byte_len_prefix_monotone(s, k + 1);
        assert(s.take(k + 1).drop_last() =~= s.take(k));
    } else {
        assert(s.take(k) =~= s);
    }
}

/// The characters of `s`, in order.
pub fn chars_of(s: &str) -> (r: Vec<char>)
    ensures
        r@ == s@,
{
    let n = s.unicode_len();
    let mut out: Vec<char> = Vec::new();
    let mut i: usize = 0;
    while i < n
        invariant
            n == s@.len(),
            i <= n,
            out@ == s@.take(i as int),
        decreases n - i,
    {
        out.push(s.get_char(i));
        i = i + 1;
        assert(out@ =~= s@.take(i as int));
    }
    assert(s@.take(n as int) =~= s@);
    out
}

/// Calls `String::push`, which appends one character.
#[verifier::external_body]
fn push_char(s: &mut String, c: char)
    ensures
        final(s)@ == old(s)@.push(c),
{
    s.push(c);
}

/// The string made of the characters of `v`.
pub fn string_of(v: &Vec<char>) -> (r: String)
    ensures
        r@ == v@,
{
    let mut out = String::new();
    let mut i: usize = 0;
    while i < v.len()
        invariant
            i <= v.len(),
            out@ == v@.take(i as int),
        decreases v.len() - i,
    {
        push_char(&mut out, v[i]);
        i = i + 1;
        assert(out@ =~= v@.take(i as int));
    }
    assert(v@.take(v.len() as int) =~= v@);
    out
}

/// A copy of `s` as an owned string.
pub fn string_from(s: &str) -> (r: String)
    ensures
        r@ == s@,
{
    s.to_owned()
}

pub proof fn lemma_trim_start_skip(s: Seq<char>, i: int)
    requires
        0 <= i <= s.len(),
        forall|k: int| 0 <= k < i ==> is_white_space(s[k]),
    ensures
        trim_start(s) == trim_start(s.skip(i)),
    decreases i,
{
    if i > 0 {
        assert(s.skip(i - 1).drop_first() =~= s.skip(i));
        lemma_trim_start_skip(s, i - 1);
        assert(s.skip(i - 1)[0] == s[i - 1]);
    } else {
        assert(s.skip(0) =~= s);
    }
}

pub proof fn lemma_trim_end_take(s: Seq<char>, j: int)
    requires
        0 <= j <= s.len(),
        forall|k: int| j <= k < s.len() ==> is_white_space(s[k]),
    ensures
        trim_end(s) == trim_end(s.take(j)),
    decreases s.len() - j,
{
    if j < s.len() {
        assert(s.take(j + 1).drop_last() =~= s.take(j));
        lemma_trim_end_take(s, j + 1);
        assert(s.take(j + 1).last() == s[j]);
    } else {
        assert(s.take(j) =~= s);
    }
}

/// `str::trim`.
pub fn trim_str<'a>(s: &'a str) -> (r: &'a str)
    ensures
        r@ == trim(s@),
{
    let n = s.unicode_len();
    let mut i: usize = 0;
    while i < n && white_space(s.get_char(i))
        invariant
            n == s@.len(),
            i <= n,
            forall|k: int| 0 <= k < i ==> is_white_space(s@[k]),
        decreases n - i,
    {
        i = i + 1;
    }
    proof {
        lemma_trim_start_skip(s@, i as int);
    }
    let ghost t = s@.skip(i as int);
    assert(i < n ==> !is_white_space(t[0]));
    assert(trim_start(t) == t) by {
        if t.len() > 0 {
            assert(!is_white_space(t[0]));
        }
    }
    let mut j: usize = n;
    while j > i && white_space(s.get_char(j - 1))
        invariant
            n == s@.len(),
            i <= j <= n,
            t == s@.skip(i as int),
            forall|k: int| j <= k < n ==> is_white_space(s@[k]),
        decreases j,
    {
        j = j - 1;
    }
    proof {
        let jj = (j - i) as int;
        assert forall|k: int| jj <= k < t.len() implies is_white_space(t[k]) by {
            assert(t[k] == s@[k + i]);
        }
        lemma_trim_end_take(t, jj);
        let u = t.take(jj);
        if u.len() > 0 {
            assert(u.last() == s@[j - 1]);
        }
        assert(trim_end(u) == u);
        assert(u =~= s@.subrange(i as int, j as int));
    }
    s.substring_char(i, j)
}

/// `str::starts_with` with a string pattern.
pub fn starts_with_chars(s: &Vec<char>, prefix: &Vec<char>) -> (r: bool)
    ensures
        r == starts_with(s@, prefix@),
{
    if prefix.len() > s.len() {
        return false;
    }
    let mut i: usize = 0;
    while i < prefix.len()
        invariant
            prefix.len() <= s.len(),
            i <= prefix.len(),
            forall|k: int| 0 <= k < i ==> s@[k] == prefix@[k],
        decreases prefix.len() - i,
    {
        if s[i] != prefix[i] {
            assert(s@.take(prefix.len() as int)[i as int] != prefix@[i as int]);
            return false;
        }
        i = i + 1;
    }
    assert(s@.take(prefix.len() as int) =~= prefix@);
    true
}

/// Whether `needle` occurs in `s` at position `at`.
fn occurs_at_exec(s: &Vec<char>, needle: &Vec<char>, at: usize) -> (r: bool)
    requires
        at + needle.len() <= s.len(),
    ensures
        r == occurs_at(s@, needle@, at as int),
{
    let mut k: usize = 0;
    while k < needle.len()
        invariant
            at + needle.len() <= s.len(),
            k <= needle.len(),
            forall|m: int| 0 <= m < k ==> s@[at + m] == needle@[m],
        decreases needle.len() - k,
    {
        if s[at + k] != needle[k] {
            assert(s@.subrange(at as int, at + needle.len())[k as int] != needle@[k as int]);
            return false;
        }
        k = k + 1;
    }
    assert(s@.subrange(at as int, at + needle.len()) =~= needle@);
    true
}

/// `str::contains` with a string pattern.
pub fn contains_chars(s: &Vec<char>, needle: &Vec<char>) -> (r: bool)
    ensures
        r == contains_str(s@, needle@),
{
    if needle.len() > s.len() {
        assert(forall|i: int| !occurs_at(s@, needle@, i));
        return false;
    }
    let last = s.len() - needle.len();
    let mut i: usize = 0;
    loop
        invariant
            last == s.len() - needle.len(),
            i <= last,
            forall|j: int| 0 <= j < i ==> !occurs_at(s@, needle@, j),
        ensures
            forall|j: int| 0 <= j <= last ==> !occurs_at(s@, needle@, j),
        decreases last - i,
    {
        if occurs_at_exec(s, needle, i) {
            return true;
        }
        if i == last {
            break;
        }
        i = i + 1;
    }
    assert forall|j: int| !occurs_at(s@, needle@, j) by {
        if 0 <= j && j + needle@.len() <= s@.len() {
            assert(j <= last);
        }
    }
    false
}

/// Position of the first occurrence of `needle` in `s`.
pub fn find_chars(s: &Vec<char>, needle: &Vec<char>) -> (r: Option<usize>)
    ensures
        match r {
            Some(i) => find_str(s@, needle@) == Some(i as int) && occurs_at(s@, needle@, i as int),
            None => find_str(s@, needle@) is None,
        },
{
    reveal(find_str);
    if needle.len() > s.len() {
        assert(forall|i: int| !occurs_at(s@, needle@, i));
        return None;
    }
    let last = s.len() - needle.len();
    let mut i: usize = 0;
    loop
        invariant
            last == s.len() - needle.len(),
            i <= last,
            forall|j: int| 0 <= j < i ==> !occurs_at(s@, needle@, j),
        ensures
            forall|j: int| 0 <= j <= last ==> !occurs_at(s@, needle@, j),
        decreases last - i,
    {
        if occurs_at_exec(s, needle, i) {
            proof {
                reveal(find_str);
                let p = |k: int|
                    occurs_at(s@, needle@, k) && forall|j: int|
                        0 <= j < k ==> !occurs_at(s@, needle@, j);
                assert(p(i as int));
                let c = choose|k: int|
                    occurs_at(s@, needle@, k) && forall|j: int|
                        0 <= j < k ==> !occurs_at(s@, needle@, j);
                assert(occurs_at(s@, needle@, c));
                assert(c == i) by {
                    if c < i {
                        assert(!occurs_at(s@, needle@, c));
                    }
                    if c > i {
                        assert(!occurs_at(s@, needle@, i as int));
                    }
                }
            }
            return Some(i);
        }
        if i == last {
            break;
        }
        i = i + 1;
    }
    assert forall|j: int| !occurs_at(s@, needle@, j) by {
        if 0 <= j && j + needle@.len() <= s@.len() {
            assert(j <= last);
        }
    }
    None
}

/// Whether `needle` is a subsequence of `hay`, scanning `hay` once.
pub fn subsequence(needle: &Vec<char>, hay: &Vec<char>) -> (r: bool)
    ensures
        r == is_subseq(needle@, hay@),
{
    if needle.len() == 0 {
        return true;
    }
    assert(needle@.skip(0) =~= needle@);
    assert(hay@.skip(0) =~= hay@);
    let mut k: usize = 0;
    let mut i: usize = 0;
    while i < hay.len()
        invariant
            0 <= k < needle.len(),
            i <= hay.len(),
            is_subseq(needle@, hay@) == is_subseq(needle@.skip(k as int), hay@.skip(i as int)),
        decreases hay.len() - i,
    {
        let ghost n = needle@.skip(k as int);
        let ghost h = hay@.skip(i as int);
        assert(n[0] == needle@[k as int]);
        assert(h[0] == hay@[i as int]);
        assert(h.drop_first() =~= hay@.skip(i + 1));
        assert(n.drop_first() =~= needle@.skip(k + 1));
        if hay[i] == needle[k] {
            if k + 1 == needle.len() {
                assert(n.drop_first().len() == 0);
                assert(is_subseq(n.drop_first(), h.drop_first()));
                assert(is_subseq(n, h));
                return true;
            }
            k = k + 1;
        }
        i = i + 1;
    }
    assert(hay@.skip(i as int).len() == 0);
    false
}

/// `text_le(a, b)`: `a` sorts before or equal to `b`.
pub fn text_le_exec(a: &Vec<char>, b: &Vec<char>) -> (r: bool)
    ensures
        r == text_le(a@, b@),
{
    let mut i: usize = 0;
    assert(a@.skip(0) =~= a@);
    assert(b@.skip(0) =~= b@);
    while i < a.len() && i < b.len() && a[i] == b[i]
        invariant
            i <= a.len(),
            i <= b.len(),
            text_le(a@, b@) == text_le(a@.skip(i as int), b@.skip(i as int)),
        decreases a.len() - i,
    {
        let ghost x = a@.skip(i as int);
        let ghost y = b@.skip(i as int);
        assert(x.drop_first() =~= a@.skip(i + 1));
        assert(y.drop_first() =~= b@.skip(i + 1));
        assert(x[0] == a@[i as int]);
        i = i + 1;
    }
    let ghost x = a@.skip(i as int);
    let ghost y = b@.skip(i as int);
    if i == a.len() {
        true
    } else if i == b.len() {
        false
    } else {
        assert(x[0] == a@[i as int] && y[0] == b@[i as int]);
        (a[i] as u32) < (b[i] as u32)
    }
}

/// The first `n` characters of `v`.
pub fn take_chars(v: &Vec<char>, n: usize) -> (r: Vec<char>)
    requires
        n <= v.len(),
    ensures
        r@ == v@.take(n as int),
{
    let mut out: Vec<char> = Vec::new();
    let mut i: usize = 0;
    while i < n
        invariant
            n <= v.len(),
            i <= n,
            out@ == v@.take(i as int),
        decreases n - i,
    {
        out.push(v[i]);
        i = i + 1;
        assert(out@ =~= v@.take(i as int));
    }
    out
}

/// `v` without its first `n` characters.
pub fn skip_chars(v: &Vec<char>, n: usize) -> (r: Vec<char>)
    requires
        n <= v.len(),
    ensures
        r@ == v@.skip(n as int),
{
    let mut out: Vec<char> = Vec::new();
    let mut i: usize = n;
    while i < v.len()
        invariant
            n <= i <= v.len(),
            out@ == v@.subrange(n as int, i as int),
        decreases v.len() - i,
    {
        out.push(v[i]);
        i = i + 1;
        assert(out@ =~= v@.subrange(n as int, i as int));
    }
    assert(v@.subrange(n as int, v.len() as int) =~= v@.skip(n as int));
    out
}

/// `str::to_ascii_uppercase`, on characters.
pub fn ascii_upper_chars(v: &Vec<char>) -> (r: Vec<char>)
    ensures
        r@ == ascii_upper(v@),
{
    let mut out: Vec<char> = Vec::new();
    let mut i: usize = 0;
    while i < v.len()
        invariant
            i <= v.len(),
            out@ == ascii_upper(v@.take(i as int)),
        decreases v.len() - i,
    {
        out.push(to_upper_char(v[i]));
        i = i + 1;
        assert(out@ =~= ascii_upper(v@.take(i as int)));
    }
    assert(v@.take(v.len() as int) =~= v@);
    out
}

proof fn lemma_trim_start_shape(s: Seq<char>)
    ensures
        trim_start(s).len() == 0 || !is_white_space(trim_start(s)[0]),
    decreases s.len(),
{
    if s.len() > 0 && is_white_space(s[0]) {
        lemma_trim_start_shape(s.drop_first());
    }
}

proof fn lemma_trim_end_shape(s: Seq<char>)
    ensures
        trim_end(s).len() <= s.len(),
        trim_end(s) == s.take(trim_end(s).len() as int),
        trim_end(s).len() == 0 || !is_white_space(trim_end(s).last()),
    decreases s.len(),
{
    if s.len() > 0 && is_white_space(s.last()) {
        lemma_trim_end_shape(s.drop_last());
        let t = trim_end(s.drop_last());
        assert(s.drop_last().take(t.len() as int) =~= s.take(t.len() as int));
    } else {
        assert(s.take(s.len() as int) =~= s);
    }
}

/// Trimming twice is trimming once.
pub proof fn lemma_trim_idempotent(s: Seq<char>)
    ensures
        trim(trim(s)) == trim(s),
{
    let a = trim_start(s);
    lemma_trim_start_shape(s);
    lemma_trim_end_shape(a);
    let t = trim_end(a);
    if t.len() > 0 {
        assert(t[0] == a[0]);
        assert(trim_start(t) == t);
        assert(trim_end(t) == t);
    } else {
        assert(trim_start(t) == t);
        assert(trim_end(t) == t);
    }
}

/// Every character is whitespace.
pub open spec fn all_white_space(w: Seq<char>) -> bool {
    forall|i: int| 0 <= i < w.len() ==> is_white_space(#[trigger] w[i])
}

proof fn lemma_trim_start_skips_blank(w: Seq<char>, t: Seq<char>)
    requires
        all_white_space(w),
    ensures
        trim_start(w + t) == trim_start(t),
    decreases w.len(),
{
    if w.len() > 0 {
        assert((w + t)[0] == w[0]);
        assert((w + t).drop_first() =~= w.drop_first() + t);
        lemma_trim_start_skips_blank(w.drop_first(), t);
    } else {
        assert(w + t =~= t);
    }
}

proof fn lemma_trim_end_skips_blank(t: Seq<char>, w: Seq<char>)
    requires
        all_white_space(w),
    ensures
        trim_end(t + w) == trim_end(t),
    decreases w.len(),
{
    if w.len() > 0 {
        assert((t + w).last() == w.last());
        assert((t + w).drop_last() =~= t + w.drop_last());
        lemma_trim_end_skips_blank(t, w.drop_last());
    } else {
        assert(t + w =~= t);
    }
}

proof fn lemma_trim_start_append(s: Seq<char>, w: Seq<char>)
    ensures
        trim_start(s).len() > 0 ==> trim_start(s + w) == trim_start(s) + w,
        trim_start(s).len() == 0 ==> trim_start(s + w) == trim_start(w),
    decreases s.len(),
{
    if s.len() == 0 {
        assert(s + w =~= w);
    } else if is_white_space(s[0]) {
        assert((s + w)[0] == s[0]);
        assert((s + w).drop_first() =~= s.drop_first() + w);
        lemma_trim_start_append(s.drop_first(), w);
    } else {
        assert((s + w)[0] == s[0]);
    }
}

/// Whitespace around text does not change what trimming leaves.
pub proof fn lemma_trim_ignores_padding(before: Seq<char>, s: Seq<char>, after: Seq<char>)
    requires
        all_white_space(before),
        all_white_space(after),
    ensures
        trim(before + s + after) == trim(s),
{
    assert(before + s + after =~= before + (s + after));
    lemma_trim_start_skips_blank(before, s + after);
    lemma_trim_start_append(s, after);
    if trim_start(s).len() > 0 {
        lemma_trim_end_skips_blank(trim_start(s), after);
    } else {
        lemma_trim_start_skips_blank(after, Seq::empty());
        assert(after + Seq::<char>::empty() =~= after);
    }
}

/// `str::to_ascii_lowercase`.
pub open spec fn ascii_lower(s: Seq<char>) -> Seq<char> {
    s.map_values(|c: char| lower_char(c))
}

proof fn lemma_lower_char_facts(c: char)
    ensures
        is_white_space(lower_char(c)) == is_white_space(c),
        upper_char(lower_char(c)) == upper_char(c),
{
    if is_ascii_upper(c) {
        let l = lower_char(c);
        vstd::utf8::char_u32_cast(c, c as u32);
        assert(0x41 <= (c as u32) <= 0x5A);
        assert((l as u32) == (c as u32) + 32);
        assert(is_ascii_lower(l));
        assert((upper_char(l) as u32) == (c as u32));
        lemma_char_u32_injective_eq(upper_char(l), c);
    }
}

proof fn lemma_char_u32_injective_eq(a: char, b: char)
    requires
        (a as u32) == (b as u32),
    ensures
        a == b,
{
    if a != b {
        lemma_char_u32_injective(a, b);
    }
}

proof fn lemma_trim_start_lower(s: Seq<char>)
    ensures
        trim_start(ascii_lower(s)) == ascii_lower(trim_start(s)),
    decreases s.len(),
{
    lemma_lower_char_facts(if s.len() > 0 { s[0] } else { ' ' });
    if s.len() > 0 && is_white_space(s[0]) {
        assert(ascii_lower(s).drop_first() =~= ascii_lower(s.drop_first()));
        lemma_trim_start_lower(s.drop_first());
    }
}

proof fn lemma_trim_end_lower(s: Seq<char>)
    ensures
        trim_end(ascii_lower(s)) == ascii_lower(trim_end(s)),
    decreases s.len(),
{
    if s.len() > 0 {
        lemma_lower_char_facts(s.last());
    }
    if s.len() > 0 && is_white_space(s.last()) {
        assert(ascii_lower(s).drop_last() =~= ascii_lower(s.drop_last()));
        lemma_trim_end_lower(s.drop_last());
    }
}

/// Upper-casing the trimmed text does not see its ASCII case.
pub proof fn lemma_upper_trim_ignores_case(s: Seq<char>)
    ensures
        ascii_upper(trim(ascii_lower(s))) == ascii_upper(trim(s)),
{
    lemma_trim_start_lower(s);
    lemma_trim_end_lower(trim_start(s));
    let t = trim(s);
    assert forall|i: int| 0 <= i < t.len() implies ascii_upper(ascii_lower(t))[i] == ascii_upper(t)[i] by {
        lemma_lower_char_facts(t[i]);
    }
    assert(ascii_upper(ascii_lower(t)) =~= ascii_upper(t));
}

proof fn lemma_first_occurrence(s: Seq<char>, needle: Seq<char>, k: int)
    requires
        occurs_at(s, needle, k),
    ensures
        exists|m: int|
            occurs_at(s, needle, m) && forall|j: int| 0 <= j < m ==> !occurs_at(s, needle, j),
    decreases k,
{
    if exists|j: int| 0 <= j < k && occurs_at(s, needle, j) {
        let j = choose|j: int| 0 <= j < k && occurs_at(s, needle, j);
        lemma_first_occurrence(s, needle, j);
    } else {
        assert(occurs_at(s, needle, k) && forall|j: int| 0 <= j < k ==> !occurs_at(s, needle, j));
    }
}

/// What `find_str` finds is the first occurrence.
pub proof fn lemma_find_str_some(s: Seq<char>, needle: Seq<char>, i: int)
    requires
        find_str(s, needle) == Some(i),
    ensures
        occurs_at(s, needle, i),
        forall|j: int| 0 <= j < i ==> !occurs_at(s, needle, j),
{
    reveal(find_str);
    let k = choose|k: int| occurs_at(s, needle, k);
    lemma_first_occurrence(s, needle, k);
}

proof fn lemma_trim_start_ascii(s: Seq<char>)
    requires
        is_ascii_text(s),
    ensures
        is_ascii_text(trim_start(s)),
    decreases s.len(),
{
    if s.len() > 0 && is_white_space(s[0]) {
        assert forall|i: int| 0 <= i < s.drop_first().len() implies (#[trigger] s.drop_first()[i]
            as u32) < 128 by {
            assert(s.drop_first()[i] == s[i + 1]);
        }
        lemma_trim_start_ascii(s.drop_first());
    }
}

/// Trimming and upper-casing ASCII text leaves ASCII text.
pub proof fn lemma_upper_trim_ascii(s: Seq<char>)
    requires
        is_ascii_text(s),
    ensures
        is_ascii_text(ascii_upper(trim(s))),
{
    lemma_trim_start_ascii(s);
    let t = trim_start(s);
    lemma_trim_end_shape(t);
    let u = trim(s);
    assert forall|i: int| 0 <= i < u.len() implies (#[trigger] u[i] as u32) < 128 by {
        assert(u[i] == t[i]);
    }
    assert forall|i: int| 0 <= i < u.len() implies (#[trigger] ascii_upper(u)[i] as u32) < 128 by {
        let c = u[i];
        if is_ascii_lower(c) {
            assert((upper_char(c) as u32) == (c as u32) - 32);
        }
    }
}

} // verus!
