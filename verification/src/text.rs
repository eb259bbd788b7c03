//! Character-level text utilities.
//!
//! The report's behaviour is defined over `Seq<char>` views: splitting an
//! export line on tabs, comparing strings lexicographically by scalar value
//! (the order `str` comparison gives on valid UTF-8), trimming whitespace,
//! and padding with spaces.

use vstd::prelude::*;
use vstd::string::*;

verus! {

/// The character views of a sequence of strings.
pub open spec fn views(s: Seq<String>) -> Seq<Seq<char>> {
    s.map_values(|x: String| x@)
}

pub proof fn lemma_views_push(s: Seq<String>, x: String)
    ensures
        views(s.push(x)) == views(s).push(x@),
{
    assert(views(s.push(x)) =~= views(s).push(x@));
}

pub proof fn lemma_views_insert(s: Seq<String>, j: int, x: String)
    requires
        0 <= j <= s.len(),
    ensures
        views(s.insert(j, x)) == views(s).insert(j, x@),
{
    s.insert_ensures(j, x);
    views(s).insert_ensures(j, x@);
    assert(views(s.insert(j, x)) =~= views(s).insert(j, x@));
}

/// Strict lexicographic order on character sequences, by scalar value.
pub open spec fn lex_lt(a: Seq<char>, b: Seq<char>) -> bool
    decreases a.len(),
{
    if b.len() == 0 {
        false
    } else if a.len() == 0 {
        true
    } else if (a[0] as u32) < (b[0] as u32) {
        true
    } else if (a[0] as u32) > (b[0] as u32) {
        false
    } else {
        lex_lt(a.skip(1), b.skip(1))
    }
}

pub proof fn lemma_lex_lt_asymmetric(a: Seq<char>, b: Seq<char>)
    ensures
        !(lex_lt(a, b) && lex_lt(b, a)),
    decreases a.len(),
{
    if a.len() > 0 && b.len() > 0 && (a[0] as u32) == (b[0] as u32) {
        lemma_lex_lt_asymmetric(a.skip(1), b.skip(1));
    }
}

pub proof fn lemma_lex_lt_total(a: Seq<char>, b: Seq<char>)
    ensures
        a == b || lex_lt(a, b) || lex_lt(b, a),
    decreases a.len(),
{
    if a.len() > 0 && b.len() > 0 && (a[0] as u32) == (b[0] as u32) {
        lemma_lex_lt_total(a.skip(1), b.skip(1));
        if a.skip(1) == b.skip(1) {
            vstd::utf8::char_u32_cast(a[0], a[0] as u32);
            vstd::utf8::char_u32_cast(b[0], b[0] as u32);
            assert(a[0] == b[0]);
            assert(a =~= b) by {
                assert(forall|i: int|
                    1 <= i < a.len() ==> a[i] == a.skip(1)[i - 1] && b[i] == b.skip(1)[i - 1]);
            }
        }
    }
}

pub proof fn lemma_lex_lt_transitive(a: Seq<char>, b: Seq<char>, c: Seq<char>)
    requires
        lex_lt(a, b),
        lex_lt(b, c),
    ensures
        lex_lt(a, c),
    decreases a.len(),
{
    if a.len() > 0 && b.len() > 0 && c.len() > 0 && (a[0] as u32) == (b[0] as u32) && (b[0] as u32)
        == (c[0] as u32) {
        lemma_lex_lt_transitive(a.skip(1), b.skip(1), c.skip(1));
    }
}

/// Compares two strings in the order `lex_lt` describes.
pub fn str_lt(a: &str, b: &str) -> (r: bool)
    ensures
        r == lex_lt(a@, b@),
{
    let an = a.unicode_len();
    let bn = b.unicode_len();
    let mut i: usize = 0;
    proof {
        assert(a@.skip(0) =~= a@);
        assert(b@.skip(0) =~= b@);
    }
    loop
        invariant
            i <= an,
            i <= bn,
            an == a@.len(),
            bn == b@.len(),
            lex_lt(a@, b@) == lex_lt(a@.skip(i as int), b@.skip(i as int)),
        ensures
            lex_lt(a@, b@) == lex_lt(a@.skip(i as int), b@.skip(i as int)),
            i <= an,
            i <= bn,
            i == an || i == bn || a@[i as int] != b@[i as int],
        decreases an - i,
    {
        if i >= an || i >= bn {
            break;
        }
        let ca = a.get_char(i);
        let cb = b.get_char(i);
        if ca != cb {
            break;
        }
        proof {
            assert(a@.skip(i as int).skip(1) =~= a@.skip(i + 1));
            assert(b@.skip(i as int).skip(1) =~= b@.skip(i + 1));
            assert(a@.skip(i as int)[0] == a@[i as int]);
            assert(b@.skip(i as int)[0] == b@[i as int]);
        }
        i += 1;
    }
    if i >= an {
        proof {
            assert(a@.skip(i as int).len() == 0);
        }
        i < bn
    } else if i >= bn {
        proof {
            assert(b@.skip(i as int).len() == 0);
            assert(a@.skip(i as int).len() > 0);
        }
        false
    } else {
        let ca = a.get_char(i);
        let cb = b.get_char(i);
        proof {
            assert(a@.skip(i as int)[0] == a@[i as int]);
            assert(b@.skip(i as int)[0] == b@[i as int]);
        }
        (ca as u32) < (cb as u32)
    }
}

/// Whether the views of two strings are equal.
pub fn str_eq(a: &str, b: &str) -> (r: bool)
    ensures
        r == (a@ == b@),
{
    let an = a.unicode_len();
    let bn = b.unicode_len();
    if an != bn {
        return false;
    }
    let mut i: usize = 0;
    loop
        invariant
            i <= an,
            an == a@.len(),
            an == b@.len(),
            forall|j: int| 0 <= j < i ==> a@[j] == b@[j],
        ensures
            i <= an,
            forall|j: int| 0 <= j < i ==> a@[j] == b@[j],
            i == an || a@[i as int] != b@[i as int],
        decreases an - i,
    {
        if i >= an {
            break;
        }
        if a.get_char(i) != b.get_char(i) {
            break;
        }
        i += 1;
    }
    if i == an {
        proof {
            assert(a@ =~= b@);
        }
        true
    } else {
        false
    }
}

/// Index of the first occurrence of `c` in `s`, or `s.len()` if none.
pub open spec fn char_pos(s: Seq<char>, c: char) -> int
    decreases s.len(),
{
    if s.len() == 0 {
        0
    } else if s[0] == c {
        0
    } else {
        1 + char_pos(s.skip(1), c)
    }
}

pub proof fn lemma_char_pos(s: Seq<char>, c: char)
    ensures
        0 <= char_pos(s, c) <= s.len(),
        forall|i: int| 0 <= i < char_pos(s, c) ==> s[i] != c,
        char_pos(s, c) < s.len() ==> s[char_pos(s, c)] == c,
    decreases s.len(),
{
    if s.len() == 0 || s[0] == c {
    } else {
        lemma_char_pos(s.skip(1), c);
        assert(forall|i: int| 1 <= i < s.len() ==> s[i] == s.skip(1)[i - 1]);
    }
}

/// `char_pos` is pinned by a witness: no `c` before `p`, and `c` at `p`
/// unless `p` is the length.
pub proof fn lemma_char_pos_is(s: Seq<char>, c: char, p: int)
    requires
        0 <= p <= s.len(),
        forall|j: int| 0 <= j < p ==> s[j] != c,
        p < s.len() ==> s[p] == c,
    ensures
        char_pos(s, c) == p,
{
    lemma_char_pos(s, c);
    if char_pos(s, c) < p {
        assert(s[char_pos(s, c)] == c);
        assert(false);
    }
    if char_pos(s, c) > p {
        assert(p < s.len());
        assert(s[p] != c);
        assert(false);
    }
}

/// The fields of `s`, split on every occurrence of `c`.
pub open spec fn split_char(s: Seq<char>, c: char) -> Seq<Seq<char>>
    decreases s.len(),
{
    let k = char_pos(s, c);
    if 0 <= k < s.len() {
        seq![s.take(k)] + split_char(s.skip(k + 1), c)
    } else {
        seq![s]
    }
}

/// Splits a line into its tab-separated fields.
pub fn split_tab(s: &str) -> (r: Vec<String>)
    ensures
        views(r@) == split_char(s@, '\t'),
{
    let n = s.unicode_len();
    let mut r: Vec<String> = Vec::new();
    let mut field_start: usize = 0;
    let mut i: usize = 0;
    proof {
        assert(s@.skip(0) =~= s@);
        assert(views(r@) + split_char(s@, '\t') =~= split_char(s@, '\t'));
    }
    loop
        invariant
            field_start <= i <= n,
            n == s@.len(),
            forall|j: int| field_start <= j < i ==> s@[j] != '\t',
            split_char(s@, '\t') == views(r@) + split_char(s@.skip(field_start as int), '\t'),
        ensures
            i == n,
            field_start <= n,
            forall|j: int| field_start <= j < n ==> s@[j] != '\t',
            split_char(s@, '\t') == views(r@) + split_char(s@.skip(field_start as int), '\t'),
        decreases n - i,
    {
        if i >= n {
            break;
        }
        let c = s.get_char(i);
        if c == '\t' {
            let field = s.substring_char(field_start, i);
            let owned = String::from_str(field);
            proof {
                let rest = s@.skip(field_start as int);
                assert(forall|j: int|
                    0 <= j < rest.len() ==> rest[j] == s@[field_start + j]);
                lemma_char_pos_is(rest, '\t', i - field_start);
                assert(rest.take(i - field_start) =~= s@.subrange(
                    field_start as int,
                    i as int,
                ));
                assert(rest.skip(i - field_start + 1) =~= s@.skip(i + 1));
                assert(split_char(rest, '\t') == seq![owned@] + split_char(s@.skip(i + 1), '\t'));
                lemma_views_push(r@, owned);
                assert(views(r@) + (seq![owned@] + split_char(s@.skip(i + 1), '\t')) =~= views(
                    r@.push(owned),
                ) + split_char(s@.skip(i + 1), '\t'));
            }
            r.push(owned);
            field_start = i + 1;
        }
        i += 1;
    }
    let field = s.substring_char(field_start, n);
    let owned = String::from_str(field);
    proof {
        let rest = s@.skip(field_start as int);
        assert(forall|j: int| 0 <= j < rest.len() ==> rest[j] == s@[field_start + j]);
        assert(forall|j: int| 0 <= j < rest.len() ==> rest[j] != '\t');
        lemma_char_pos_is(rest, '\t', rest.len() as int);
        assert(rest =~= s@.subrange(field_start as int, n as int));
        assert(split_char(rest, '\t') == seq![owned@]);
        lemma_views_push(r@, owned);
        assert(views(r@) + seq![owned@] =~= views(r@.push(owned)));
    }
    r.push(owned);
    r
}

/// Whether `c` counts as whitespace for trimming, as `char::is_whitespace`
/// has it.
pub open spec fn is_space_char(c: char) -> bool {
    c == ' ' || c == '\t' || c == '\n' || c == '\r' || c == '\u{b}' || c == '\u{c}' || c
        == '\u{85}' || c == '\u{a0}' || c == '\u{1680}' || ('\u{2000}' as u32 <= c as u32 <= '\u{200a}' as u32)
        || c == '\u{2028}' || c == '\u{2029}' || c == '\u{202f}' || c == '\u{205f}' || c
        == '\u{3000}'
}

fn is_space(c: char) -> (r: bool)
    ensures
        r == is_space_char(c),
{
    c == ' ' || c == '\t' || c == '\n' || c == '\r' || c == '\u{b}' || c == '\u{c}' || c
        == '\u{85}' || c == '\u{a0}' || c == '\u{1680}' || ('\u{2000}' as u32 <= c as u32
        && c as u32 <= '\u{200a}' as u32) || c == '\u{2028}' || c == '\u{2029}' || c == '\u{202f}'
        || c == '\u{205f}' || c == '\u{3000}'
}

/// `s` with trailing whitespace removed.
pub open spec fn trim_end_spec(s: Seq<char>) -> Seq<char>
    decreases s.len(),
{
    if s.len() > 0 && is_space_char(s.last()) {
        trim_end_spec(s.drop_last())
    } else {
        s
    }
}

proof fn lemma_trim_end_at(s: Seq<char>, b: int)
    requires
        0 <= b <= s.len(),
        forall|j: int| b <= j < s.len() ==> is_space_char(#[trigger] s[j]),
        b > 0 ==> !is_space_char(s[b - 1]),
    ensures
        trim_end_spec(s) == s.take(b),
    decreases s.len(),
{
    if b == s.len() {
        if s.len() > 0 && is_space_char(s.last()) {
            assert(false);
        }
        assert(s.take(b) =~= s);
    } else {
        assert(is_space_char(s.last()));
        lemma_trim_end_at(s.drop_last(), b);
        assert(s.drop_last().take(b) =~= s.take(b));
    }
}

/// Removes trailing whitespace from `s`.
pub fn trim_end(s: &str) -> (r: String)
    ensures
        r@ == trim_end_spec(s@),
{
    let n = s.unicode_len();
    let mut b: usize = n;
    loop
        invariant
            b <= n,
            n == s@.len(),
            forall|j: int| b <= j < n ==> is_space_char(#[trigger] s@[j]),
        ensures
            b <= n,
            forall|j: int| b <= j < n ==> is_space_char(#[trigger] s@[j]),
            b > 0 ==> !is_space_char(s@[b - 1]),
        decreases b,
    {
        if b == 0 {
            break;
        }
        if !is_space(s.get_char(b - 1)) {
            break;
        }
        b -= 1;
    }
    let part = s.substring_char(0, b);
    proof {
        lemma_trim_end_at(s@, b as int);
        assert(s@.take(b as int) =~= s@.subrange(0, b as int));
    }
    String::from_str(part)
}

/// `n` spaces.
pub open spec fn spaces(n: int) -> Seq<char>
    decreases n,
{
    if n <= 0 {
        Seq::empty()
    } else {
        spaces(n - 1).push(' ')
    }
}

/// Every character of `spaces(n)` is a space, and its length is `n` (or 0).
pub proof fn lemma_spaces_all(n: int)
    ensures
        spaces(n).len() == if n <= 0 {
            0int
        } else {
            n
        },
        forall|i: int| 0 <= i < spaces(n).len() ==> spaces(n)[i] == ' ',
    decreases n,
{
    if n > 0 {
        lemma_spaces_all(n - 1);
    }
}

/// A string of `n` spaces.
pub fn space_string(n: usize) -> (r: String)
    ensures
        r@ == spaces(n as int),
{
    let mut r = String::new();
    let mut i: usize = 0;
    proof {
        reveal_strlit(" ");
    }
    while i < n
        invariant
            i <= n,
            r@ == spaces(i as int),
            " "@ == seq![' '],
        decreases n - i,
    {
        r.append(" ");
        proof {
            assert(r@ =~= spaces(i as int).push(' '));
        }
        i += 1;
    }
    r
}

} // verus!
