//! Character and token utilities shared by the search index, the privacy
//! filter and the query classifier.
//!
//! Tokens are maximal runs of token characters (ASCII letters, ASCII digits,
//! and any character outside ASCII). Matching is case-insensitive over the
//! ASCII range: characters are compared after folding `A`..`Z` to `a`..`z`.

use vstd::prelude::*;

verus! {

// ---------------------------------------------------------------------------
// Character classes
// ---------------------------------------------------------------------------

/// A character that may appear inside a search token.
pub open spec fn is_token_char(c: char) -> bool {
    let u = c as u32;
    (48 <= u && u <= 57) || (65 <= u && u <= 90) || (97 <= u && u <= 122) || u >= 128
}

/// ASCII whitespace, the separator class used when splitting words.
pub open spec fn is_space_char(c: char) -> bool {
    let u = c as u32;
    u == 32 || (9 <= u && u <= 13)
}

/// ASCII case folding: `A`..`Z` map to `a`..`z`, everything else is itself.
pub open spec fn fold_char(c: char) -> char {
    let u = c as u32;
    if 65 <= u && u <= 90 {
        (u + 32) as char
    } else {
        c
    }
}

/// Case folding applied to a whole character sequence.
pub open spec fn fold_chars(s: Seq<char>) -> Seq<char> {
    s.map(|i: int, c: char| fold_char(c))
}

pub fn is_token_char_at(c: char) -> (r: bool)
    ensures
        r == is_token_char(c),
{
    let u = c as u32;
    (48 <= u && u <= 57) || (65 <= u && u <= 90) || (97 <= u && u <= 122) || u >= 128
}

pub fn is_space_char_at(c: char) -> (r: bool)
    ensures
        r == is_space_char(c),
{
    let u = c as u32;
    u == 32 || (9 <= u && u <= 13)
}

/// Executable ASCII case folding of a single character.
pub fn fold_char_at(c: char) -> (r: char)
    ensures
        r == fold_char(c),
{
    match c {
        'A' => 'a',
        'B' => 'b',
        'C' => 'c',
        'D' => 'd',
        'E' => 'e',
        'F' => 'f',
        'G' => 'g',
        'H' => 'h',
        'I' => 'i',
        'J' => 'j',
        'K' => 'k',
        'L' => 'l',
        'M' => 'm',
        'N' => 'n',
        'O' => 'o',
        'P' => 'p',
        'Q' => 'q',
        'R' => 'r',
        'S' => 's',
        'T' => 't',
        'U' => 'u',
        'V' => 'v',
        'W' => 'w',
        'X' => 'x',
        'Y' => 'y',
        'Z' => 'z',
        _ => c,
    }
}

// ---------------------------------------------------------------------------
// Conversions between strings and character vectors
// ---------------------------------------------------------------------------

/// The characters of a string slice, as a vector.
pub fn chars_of(s: &str) -> (r: Vec<char>)
    ensures
        r@ == s@,
{
    let n: usize = s.unicode_len();
    let mut r: Vec<char> = Vec::new();
    let mut i: usize = 0;
    while i < n
        invariant
            n == s@.len(),
            i <= n,
            r@ == s@.subrange(0, i as int),
        decreases n - i,
    {
        r.push(s.get_char(i));
        i = i + 1;
        proof {
            assert(r@ =~= s@.subrange(0, i as int));
        }
    }
    proof {
        assert(r@ =~= s@);
    }
    r
}

/// Relies on `String: FromIterator<char>` (`collect`): the resulting string
/// holds exactly the given characters, in order.
#[verifier::external_body]
pub fn string_from_chars(v: &Vec<char>) -> (r: String)
    ensures
        r@ == v@,
{
    v.iter().collect()
}

/// Fold a character vector to lower case (ASCII range only).
pub fn fold_vec(v: &Vec<char>) -> (r: Vec<char>)
    ensures
        r@ == fold_chars(v@),
{
    let mut r: Vec<char> = Vec::new();
    let mut i: usize = 0;
    while i < v.len()
        invariant
            i <= v.len(),
            r@ == fold_chars(v@.subrange(0, i as int)),
        decreases v.len() - i,
    {
        r.push(fold_char_at(v[i]));
        i = i + 1;
        proof {
            assert(r@ =~= fold_chars(v@.subrange(0, i as int)));
        }
    }
    proof {
        assert(v@.subrange(0, v@.len() as int) =~= v@);
    }
    r
}

// ---------------------------------------------------------------------------
// Equality and containment
// ---------------------------------------------------------------------------

/// Character-for-character equality of two vectors.
pub fn chars_eq(a: &Vec<char>, b: &Vec<char>) -> (r: bool)
    ensures
        r == (a@ == b@),
{
    if a.len() != b.len() {
        return false;
    }
    let mut i: usize = 0;
    while i < a.len()
        invariant
            a@.len() == b@.len(),
            i <= a.len(),
            forall|j: int| 0 <= j < i ==> a@[j] == b@[j],
        decreases a.len() - i,
    {
        if a[i] != b[i] {
            return false;
        }
        i = i + 1;
    }
    proof {
        assert(a@ =~= b@);
    }
    true
}

/// Case-insensitive equality of two character vectors.
pub fn chars_eq_folded(a: &Vec<char>, b: &Vec<char>) -> (r: bool)
    ensures
        r == (fold_chars(a@) == fold_chars(b@)),
{
    if a.len() != b.len() {
        proof {
            assert(fold_chars(a@).len() != fold_chars(b@).len());
        }
        return false;
    }
    let mut i: usize = 0;
    while i < a.len()
        invariant
            a@.len() == b@.len(),
            i <= a.len(),
            forall|j: int| 0 <= j < i ==> fold_char(a@[j]) == fold_char(b@[j]),
        decreases a.len() - i,
    {
        if fold_char_at(a[i]) != fold_char_at(b[i]) {
            proof {
                assert(fold_chars(a@)[i as int] != fold_chars(b@)[i as int]);
            }
            return false;
        }
        i = i + 1;
    }
    proof {
        assert(fold_chars(a@) =~= fold_chars(b@));
    }
    true
}

/// Equality of two string slices, by their characters.
pub fn str_eq(a: &str, b: &str) -> (r: bool)
    ensures
        r == (a@ == b@),
{
    let va = chars_of(a);
    let vb = chars_of(b);
    chars_eq(&va, &vb)
}

/// `needle` occurs as a contiguous run inside `hay`.
/// `a` is at or before `b` in lexicographic order over character scalar
/// values, with a prefix before any extension of it.
pub open spec fn lex_le(a: Seq<char>, b: Seq<char>) -> bool
    decreases a.len(),
{
    if a.len() == 0 {
        true
    } else if b.len() == 0 {
        false
    } else if (a[0] as u32) < (b[0] as u32) {
        true
    } else if (a[0] as u32) > (b[0] as u32) {
        false
    } else {
        lex_le(a.drop_first(), b.drop_first())
    }
}

/// Lexicographic order is total.
pub proof fn lemma_lex_total(a: Seq<char>, b: Seq<char>)
    ensures
        lex_le(a, b) || lex_le(b, a),
    decreases a.len(),
{
    if a.len() > 0 && b.len() > 0 && a[0] as u32 == b[0] as u32 {
        lemma_lex_total(a.drop_first(), b.drop_first());
    }
}

/// Lexicographic order is transitive.
pub proof fn lemma_lex_trans(a: Seq<char>, b: Seq<char>, c: Seq<char>)
    requires
        lex_le(a, b),
        lex_le(b, c),
    ensures
        lex_le(a, c),
    decreases a.len(),
{
    if a.len() > 0 {
        if b.len() > 0 && c.len() > 0 && a[0] as u32 == b[0] as u32 && b[0] as u32 == c[0] as u32 {
            lemma_lex_trans(a.drop_first(), b.drop_first(), c.drop_first());
        }
    }
}

pub open spec fn has_sub(hay: Seq<char>, needle: Seq<char>) -> bool {
    exists|i: int|
        0 <= i && i + needle.len() <= hay.len() && #[trigger] hay.subrange(
            i,
            i + needle.len() as int,
        ) == needle
}

/// A substring of a string stays a substring after appending more text.
pub proof fn lemma_has_sub_extend(a: Seq<char>, b: Seq<char>, needle: Seq<char>)
    requires
        has_sub(a, needle),
    ensures
        has_sub(a + b, needle),
{
    let i = choose|i: int|
        0 <= i && i + needle.len() <= a.len() && #[trigger] a.subrange(i, i + needle.len() as int)
            == needle;
    assert((a + b).subrange(i, i + needle.len() as int) =~= a.subrange(
        i,
        i + needle.len() as int,
    ));
}

/// A substring of a string stays a substring after prepending more text.
pub proof fn lemma_has_sub_prepend(a: Seq<char>, b: Seq<char>, needle: Seq<char>)
    requires
        has_sub(b, needle),
    ensures
        has_sub(a + b, needle),
{
    let i = choose|i: int|
        0 <= i && i + needle.len() <= b.len() && #[trigger] b.subrange(i, i + needle.len() as int)
            == needle;
    assert((a + b).subrange(a.len() + i, a.len() + i + needle.len() as int) =~= b.subrange(
        i,
        i + needle.len() as int,
    ));
}

/// Substring search (naive), case-sensitive.
pub fn contains_chars(hay: &Vec<char>, needle: &Vec<char>) -> (r: bool)
    ensures
        r == has_sub(hay@, needle@),
{
    let m: usize = needle.len();
    let n: usize = hay.len();
    if m > n {
        return false;
    }
    if m == 0 {
        proof {
            assert(hay@.subrange(0, 0 + needle@.len() as int) =~= needle@);
        }
        return true;
    }
    let mut i: usize = 0;
    while i <= n - m
        invariant
            1 <= m <= n,
            n == hay@.len(),
            m == needle@.len(),
            i <= n - m + 1,
            forall|k: int|
                0 <= k < i ==> #[trigger] hay@.subrange(k, k + needle@.len() as int) != needle@,
        decreases n - m + 1 - i,
    {
        let mut j: usize = 0;
        let mut all: bool = true;
        while j < m && all
            invariant
                m <= n,
                n == hay@.len(),
                m == needle@.len(),
                i + m <= n,
                j <= m,
                all ==> forall|k: int| 0 <= k < j ==> hay@[i + k] == needle@[k],
                !all ==> hay@.subrange(i as int, i + m as int) != needle@,
            decreases m - j + (if all { 1int } else { 0int }),
        {
            if hay[i + j] != needle[j] {
                proof {
                    assert(hay@.subrange(i as int, i + m as int)[j as int] == hay@[i + j]);
                }
                all = false;
            } else {
                proof {
                    assert forall|k: int| 0 <= k < j + 1 implies hay@[i + k] == needle@[k] by {
                        if k == j {
                            assert(hay@[i + j] == needle@[j as int]);
                        }
                    }
                }
                j = j + 1;
            }
        }
        if all {
            proof {
                assert(hay@.subrange(i as int, i + needle@.len() as int) =~= needle@);
            }
            return true;
        }
        i = i + 1;
    }
    false
}

/// Case-insensitive substring search.
pub fn contains_chars_folded(hay: &Vec<char>, needle: &Vec<char>) -> (r: bool)
    ensures
        r == has_sub(fold_chars(hay@), fold_chars(needle@)),
{
    let fh = fold_vec(hay);
    let fn_ = fold_vec(needle);
    contains_chars(&fh, &fn_)
}

// ---------------------------------------------------------------------------
// Tokenization
// ---------------------------------------------------------------------------

/// Length of the run of token characters at the front of `s`.
pub open spec fn token_run(s: Seq<char>) -> nat
    decreases s.len(),
{
    if s.len() == 0 || !is_token_char(s[0]) {
        0
    } else {
        1 + token_run(s.drop_first())
    }
}

pub proof fn lemma_token_run_le(s: Seq<char>)
    ensures
        token_run(s) <= s.len(),
    decreases s.len(),
{
    if s.len() != 0 && is_token_char(s[0]) {
        lemma_token_run_le(s.drop_first());
    }
}

/// The tokens of a character sequence: maximal runs of token characters.
pub open spec fn spec_tokens(s: Seq<char>) -> Seq<Seq<char>>
    decreases s.len(),
    via spec_tokens_decreases
{
    if s.len() == 0 {
        Seq::<Seq<char>>::empty()
    } else if !is_token_char(s[0]) {
        spec_tokens(s.drop_first())
    } else {
        let k = token_run(s) as int;
        seq![s.subrange(0, k)] + spec_tokens(s.subrange(k, s.len() as int))
    }
}

#[via_fn]
proof fn spec_tokens_decreases(s: Seq<char>) {
    if s.len() != 0 && is_token_char(s[0]) {
        lemma_token_run_le(s);
    }
}

/// `token_run` seen through an index bound: all characters before the run end
/// are token characters, and the run ends at a non-token character or at the
/// end of the sequence.
pub proof fn lemma_token_run_chars(s: Seq<char>)
    ensures
        forall|j: int| 0 <= j < token_run(s) ==> is_token_char(s[j]),
        token_run(s) < s.len() ==> !is_token_char(s[token_run(s) as int]),
    decreases s.len(),
{
    if s.len() != 0 && is_token_char(s[0]) {
        let rest = s.drop_first();
        lemma_token_run_le(rest);
        lemma_token_run_chars(rest);
        assert forall|j: int| 0 <= j < token_run(s) implies is_token_char(s[j]) by {
            if j == 0 {
                assert(is_token_char(s[0]));
            } else {
                assert(0 <= j - 1 < token_run(rest));
                assert(is_token_char(rest[j - 1]));
                assert(rest[j - 1] == s[j]);
            }
        }
        if token_run(s) < s.len() {
            let k = token_run(s) as int;
            assert(token_run(rest) < rest.len());
            assert(!is_token_char(rest[k - 1]));
            assert(rest[k - 1] == s[k]);
        }
    }
}

/// The views of a sequence of character vectors.
pub open spec fn token_views(ts: Seq<Vec<char>>) -> Seq<Seq<char>> {
    ts.map(|i: int, t: Vec<char>| t@)
}

/// Tokenize a character vector.
pub fn tokenize(s: &Vec<char>) -> (r: Vec<Vec<char>>)
    ensures
        token_views(r@) == spec_tokens(s@),
{
    let n: usize = s.len();
    let mut r: Vec<Vec<char>> = Vec::new();
    let mut i: usize = 0;
    proof {
        assert(s@.subrange(0, n as int) =~= s@);
        assert(token_views(r@) =~= Seq::<Seq<char>>::empty());
    }
    while i < n
        invariant
            n == s@.len(),
            i <= n,
            spec_tokens(s@) == token_views(r@) + spec_tokens(s@.subrange(i as int, n as int)),
        decreases n - i,
    {
        let ghost rest = s@.subrange(i as int, n as int);
        if !is_token_char_at(s[i]) {
            proof {
                assert(rest[0] == s@[i as int]);
                assert(rest.drop_first() =~= s@.subrange(i + 1, n as int));
            }
            i = i + 1;
        } else {
            // scan to the end of the token run
            let start: usize = i;
            let mut j: usize = i + 1;
            while j < n && is_token_char_at(s[j])
                invariant
                    n == s@.len(),
                    start < j <= n,
                    forall|k: int| start <= k < j ==> is_token_char(s@[k]),
                decreases n - j,
            {
                j = j + 1;
            }
            let mut tok: Vec<char> = Vec::new();
            let mut k: usize = start;
            while k < j
                invariant
                    start <= k <= j <= n,
                    n == s@.len(),
                    tok@ == s@.subrange(start as int, k as int),
                decreases j - k,
            {
                tok.push(s[k]);
                k = k + 1;
                proof {
                    assert(tok@ =~= s@.subrange(start as int, k as int));
                }
            }
            proof {
                // the scanned run is exactly token_run(rest)
                lemma_token_run_chars(rest);
                lemma_token_run_le(rest);
                assert forall|m: int| 0 <= m < (j - start) implies is_token_char(rest[m]) by {
                    assert(rest[m] == s@[i + m]);
                }
                if token_run(rest) < (j - start) {
                    assert(is_token_char(rest[token_run(rest) as int]));
                    assert(false);
                }
                if token_run(rest) > (j - start) {
                    if j < n {
                        assert(rest[(j - start) as int] == s@[j as int]);
                        assert(!is_token_char(rest[(j - start) as int]));
                        assert(false);
                    } else {
                        assert(token_run(rest) <= rest.len());
                        assert(false);
                    }
                }
                assert(token_run(rest) == (j - start) as nat);
                assert(rest.subrange(0, (j - start) as int) =~= s@.subrange(
                    start as int,
                    j as int,
                ));
                assert(rest.subrange((j - start) as int, rest.len() as int) =~= s@.subrange(
                    j as int,
                    n as int,
                ));
                assert(spec_tokens(rest) == seq![tok@] + spec_tokens(
                    s@.subrange(j as int, n as int),
                ));
            }
            let ghost prev = r@;
            r.push(tok);
            proof {
                assert(token_views(r@) =~= token_views(prev) + seq![tok@]);
                assert((token_views(prev) + seq![tok@]) + spec_tokens(
                    s@.subrange(j as int, n as int),
                ) =~= token_views(prev) + (seq![tok@] + spec_tokens(
                    s@.subrange(j as int, n as int),
                )));
            }
            i = j;
        }
    }
    proof {
        assert(s@.subrange(n as int, n as int) =~= Seq::<char>::empty());
        assert(token_views(r@) + spec_tokens(Seq::<char>::empty()) =~= token_views(r@));
    }
    r
}

// ---------------------------------------------------------------------------
// Token matching
// ---------------------------------------------------------------------------

/// Two tokens match if they are equal after case folding.
pub open spec fn token_matches(a: Seq<char>, b: Seq<char>) -> bool {
    fold_chars(a) == fold_chars(b)
}

/// A token occurs (case-insensitively) among `tokens`.
pub open spec fn has_token(tokens: Seq<Seq<char>>, t: Seq<char>) -> bool {
    exists|i: int| 0 <= i < tokens.len() && token_matches(tokens[i], t)
}

/// A query matches a text when the query has at least one token and every
/// query token occurs among the text tokens.
pub open spec fn query_matches(query_tokens: Seq<Seq<char>>, text_tokens: Seq<Seq<char>>) -> bool {
    query_tokens.len() > 0 && forall|i: int|
        0 <= i < query_tokens.len() ==> has_token(text_tokens, #[trigger] query_tokens[i])
}

/// Executable check that a single token occurs among `tokens`.
pub fn has_token_in(tokens: &Vec<Vec<char>>, t: &Vec<char>) -> (r: bool)
    ensures
        r == has_token(token_views(tokens@), t@),
{
    let mut i: usize = 0;
    while i < tokens.len()
        invariant
            i <= tokens.len(),
            forall|j: int| 0 <= j < i ==> !token_matches(#[trigger] token_views(tokens@)[j], t@),
        decreases tokens.len() - i,
    {
        if chars_eq_folded(&tokens[i], t) {
            proof {
                assert(token_views(tokens@)[i as int] == tokens@[i as int]@);
            }
            return true;
        }
        proof {
            assert(token_views(tokens@)[i as int] == tokens@[i as int]@);
        }
        i = i + 1;
    }
    false
}

/// Executable query match check.
pub fn text_matches(query_tokens: &Vec<Vec<char>>, text_tokens: &Vec<Vec<char>>) -> (r: bool)
    ensures
        r == query_matches(token_views(query_tokens@), token_views(text_tokens@)),
{
    if query_tokens.len() == 0 {
        return false;
    }
    let mut i: usize = 0;
    while i < query_tokens.len()
        invariant
            i <= query_tokens.len(),
            forall|j: int|
                0 <= j < i ==> has_token(
                    token_views(text_tokens@),
                    #[trigger] token_views(query_tokens@)[j],
                ),
        decreases query_tokens.len() - i,
    {
        if !has_token_in(text_tokens, &query_tokens[i]) {
            proof {
                assert(token_views(query_tokens@)[i as int] == query_tokens@[i as int]@);
            }
            return false;
        }
        proof {
            assert(token_views(query_tokens@)[i as int] == query_tokens@[i as int]@);
        }
        i = i + 1;
    }
    true
}

/// A matching query has a witness among the text's tokens: some text token
/// that occurs (case-insensitively) in the query.
pub proof fn lemma_match_witness(qt: Seq<Seq<char>>, tt: Seq<Seq<char>>)
    requires
        query_matches(qt, tt),
    ensures
        exists|j: int| 0 <= j < tt.len() && has_token(qt, #[trigger] tt[j]),
{
    let q0 = qt[0];
    assert(has_token(tt, q0));
    let j = choose|j: int| 0 <= j < tt.len() && token_matches(tt[j], q0);
    assert(token_matches(qt[0], tt[j]));
    assert(has_token(qt, tt[j]));
}

/// Any non-empty contiguous run of a text's tokens matches that text.
pub proof fn lemma_contiguous_tokens_match(text_tokens: Seq<Seq<char>>, lo: int, hi: int)
    requires
        0 <= lo < hi <= text_tokens.len(),
    ensures
        query_matches(text_tokens.subrange(lo, hi), text_tokens),
{
    let q = text_tokens.subrange(lo, hi);
    assert forall|i: int| 0 <= i < q.len() implies has_token(text_tokens, #[trigger] q[i]) by {
        assert(q[i] == text_tokens[lo + i]);
        assert(token_matches(text_tokens[lo + i], q[i]));
    }
}

// ---------------------------------------------------------------------------
// Integer formatting and parsing
// ---------------------------------------------------------------------------

/// Decimal digits of a non-negative integer, most significant first.
pub open spec fn dec_digits(n: nat) -> Seq<char>
    decreases n,
{
    if n < 10 {
        seq![digit_char(n)]
    } else {
        dec_digits(n / 10).push(digit_char(n % 10))
    }
}

/// The character for one decimal digit.
pub open spec fn digit_char(d: nat) -> char {
    (48 + d) as char
}

/// Decimal rendering of a signed integer.
pub open spec fn dec_string(n: int) -> Seq<char> {
    if n < 0 {
        seq!['-'] + dec_digits((-n) as nat)
    } else {
        dec_digits(n as nat)
    }
}

fn digit_char_at(d: u64) -> (r: char)
    requires
        d < 10,
    ensures
        r == digit_char(d as nat),
{
    let r = match d {
        0 => '0',
        1 => '1',
        2 => '2',
        3 => '3',
        4 => '4',
        5 => '5',
        6 => '6',
        7 => '7',
        8 => '8',
        _ => '9',
    };
    proof {
        assert(('0' as u32) == 48);
        assert((48 + d as nat) < 0xD800);
    }
    r
}

/// Characters of the decimal rendering of `n`.
pub fn u64_to_chars(n: u64) -> (r: Vec<char>)
    ensures
        r@ == dec_digits(n as nat),
{
    let mut rev: Vec<char> = Vec::new();
    let mut m: u64 = n;
    let mut done: bool = false;
    // collect digits least significant first
    while !done
        invariant
            !done && rev@.len() == 0 ==> m == n,
            !done && rev@.len() > 0 ==> m > 0 && dec_digits(n as nat) == dec_digits(m as nat)
                + rev@.reverse(),
            done ==> dec_digits(n as nat) == rev@.reverse(),
        decreases m + (if done { 0int } else { 1int }),
    {
        let d = m % 10;
        let ghost prev = rev@;
        rev.push(digit_char_at(d));
        proof {
            assert(rev@.reverse() =~= seq![digit_char(d as nat)] + prev.reverse());
        }
        let next = m / 10;
        proof {
            if m >= 10 {
                assert(dec_digits(m as nat) == dec_digits((m as nat) / 10).push(
                    digit_char((m % 10) as nat),
                ));
                assert(dec_digits((m as nat) / 10) + (seq![digit_char(d as nat)]
                    + prev.reverse()) =~= dec_digits(m as nat) + prev.reverse());
            } else {
                assert(dec_digits(m as nat) =~= seq![digit_char(d as nat)]);
                assert(dec_digits(m as nat) + prev.reverse() =~= seq![digit_char(d as nat)]
                    + prev.reverse());
            }
        }
        m = next;
        if m == 0 {
            done = true;
        }
    }
    // reverse
    let mut r: Vec<char> = Vec::new();
    let mut i: usize = rev.len();
    proof {
        assert(rev@.subrange(i as int, rev@.len() as int).reverse() =~= Seq::<char>::empty());
    }
    while i > 0
        invariant
            i <= rev.len(),
            r@ == rev@.subrange(i as int, rev@.len() as int).reverse(),
        decreases i,
    {
        i = i - 1;
        r.push(rev[i]);
        proof {
            assert(r@ =~= rev@.subrange(i as int, rev@.len() as int).reverse());
        }
    }
    proof {
        assert(rev@.subrange(0, rev@.len() as int) =~= rev@);
    }
    r
}

/// Decimal rendering of a signed integer as characters.
pub fn i64_to_chars(n: i64) -> (r: Vec<char>)
    ensures
        r@ == dec_string(n as int),
{
    if n >= 0 {
        u64_to_chars(n as u64)
    } else {
        let mag: u64 = if n == i64::MIN {
            9223372036854775808u64
        } else {
            (-n) as u64
        };
        proof {
            assert(mag == (-(n as int)));
        }
        let digits = u64_to_chars(mag);
        let mut r: Vec<char> = Vec::new();
        r.push('-');
        let mut i: usize = 0;
        while i < digits.len()
            invariant
                i <= digits.len(),
                r@ == seq!['-'] + digits@.subrange(0, i as int),
            decreases digits.len() - i,
        {
            r.push(digits[i]);
            i = i + 1;
            proof {
                assert(r@ =~= seq!['-'] + digits@.subrange(0, i as int));
            }
        }
        proof {
            assert(digits@.subrange(0, digits@.len() as int) =~= digits@);
        }
        r
    }
}

/// Decimal rendering of a signed integer as a `String`.
pub fn i64_to_string(n: i64) -> (r: String)
    ensures
        r@ == dec_string(n as int),
{
    let v = i64_to_chars(n);
    string_from_chars(&v)
}

/// Numeric value of a sequence of decimal digit characters.
pub open spec fn digits_value(s: Seq<char>) -> nat
    decreases s.len(),
{
    if s.len() == 0 {
        0
    } else {
        digits_value(s.drop_last()) * 10 + (s.last() as u32 - 48) as nat
    }
}

/// All characters are ASCII decimal digits.
pub open spec fn all_digits(s: Seq<char>) -> bool {
    forall|i: int| 0 <= i < s.len() ==> 48 <= (#[trigger] s[i]) as u32 <= 57
}

/// Parse a run of decimal digits as an unsigned value, failing on overflow,
/// on empty input, or on a non-digit character.
pub fn parse_digits(v: &Vec<char>, from: usize, to: usize) -> (r: Option<u64>)
    requires
        from <= to <= v@.len(),
    ensures
        match r {
            Some(x) => all_digits(v@.subrange(from as int, to as int)) && from < to && x as nat
                == digits_value(v@.subrange(from as int, to as int)),
            None => from == to || !all_digits(v@.subrange(from as int, to as int))
                || digits_value(v@.subrange(from as int, to as int)) > u64::MAX,
        },
{
    if from == to {
        return None;
    }
    let mut acc: u64 = 0;
    let mut i: usize = from;
    while i < to
        invariant
            from <= i <= to <= v@.len(),
            all_digits(v@.subrange(from as int, i as int)),
            acc as nat == digits_value(v@.subrange(from as int, i as int)),
        decreases to - i,
    {
        let c = v[i];
        let u = c as u32;
        if !(48 <= u && u <= 57) {
            proof {
                assert(v@.subrange(from as int, to as int)[i - from] == v@[i as int]);
            }
            return None;
        }
        let d: u64 = (u - 48) as u64;
        if acc > (u64::MAX - d) / 10 {
            proof {
                lemma_digits_value_mono(v@.subrange(from as int, to as int), i + 1 - from);
                assert(v@.subrange(from as int, i + 1) =~= v@.subrange(from as int, to as int)
                    .subrange(0, i + 1 - from));
                assert(v@.subrange(from as int, i + 1).drop_last() =~= v@.subrange(
                    from as int,
                    i as int,
                ));
            }
            return None;
        }
        acc = acc * 10 + d;
        i = i + 1;
        proof {
            assert(v@.subrange(from as int, i as int).drop_last() =~= v@.subrange(
                from as int,
                i - 1,
            ));
            assert(v@.subrange(from as int, i as int).last() == v@[i - 1]);
        }
    }
    proof {
        assert(v@.subrange(from as int, i as int) =~= v@.subrange(from as int, to as int));
    }
    Some(acc)
}

/// Whether every character of a vector is an ASCII digit.
pub fn all_digits_in(v: &Vec<char>) -> (r: bool)
    ensures
        r == all_digits(v@),
{
    let mut i: usize = 0;
    while i < v.len()
        invariant
            i <= v@.len(),
            forall|j: int| 0 <= j < i ==> 48 <= (#[trigger] v@[j]) as u32 <= 57,
        decreases v@.len() - i,
    {
        let u = v[i] as u32;
        if !(48 <= u && u <= 57) {
            return false;
        }
        i = i + 1;
    }
    true
}

/// A prefix of a digit string never has a larger value than the whole.
pub proof fn lemma_digits_value_mono(s: Seq<char>, k: int)
    requires
        0 <= k <= s.len(),
    ensures
        digits_value(s.subrange(0, k)) <= digits_value(s),
    decreases s.len() - k,
{
    if k < s.len() {
        lemma_digits_value_mono(s, k + 1);
        assert(s.subrange(0, k + 1).drop_last() =~= s.subrange(0, k));
        assert(digits_value(s.subrange(0, k + 1)) == digits_value(s.subrange(0, k)) * 10 + (
        s.subrange(0, k + 1).last() as u32 - 48) as nat);
    } else {
        assert(s.subrange(0, k) =~= s);
    }
}

// ---------------------------------------------------------------------------
// Splitting and trimming
// ---------------------------------------------------------------------------

/// Length of the run of characters before the first `sep` (or to the end).
pub open spec fn seg_len(s: Seq<char>, sep: char) -> nat
    decreases s.len(),
{
    if s.len() == 0 || s[0] == sep {
        0
    } else {
        1 + seg_len(s.drop_first(), sep)
    }
}

pub proof fn lemma_seg_len_le(s: Seq<char>, sep: char)
    ensures
        seg_len(s, sep) <= s.len(),
    decreases s.len(),
{
    if s.len() != 0 && s[0] != sep {
        lemma_seg_len_le(s.drop_first(), sep);
    }
}

pub proof fn lemma_seg_len_chars(s: Seq<char>, sep: char)
    ensures
        forall|j: int| 0 <= j < seg_len(s, sep) ==> s[j] != sep,
        seg_len(s, sep) < s.len() ==> s[seg_len(s, sep) as int] == sep,
    decreases s.len(),
{
    if s.len() != 0 && s[0] != sep {
        let rest = s.drop_first();
        lemma_seg_len_le(rest, sep);
        lemma_seg_len_chars(rest, sep);
        assert forall|j: int| 0 <= j < seg_len(s, sep) implies s[j] != sep by {
            if j > 0 {
                assert(rest[j - 1] != sep);
                assert(rest[j - 1] == s[j]);
            }
        }
        if seg_len(s, sep) < s.len() {
            let k = seg_len(s, sep) as int;
            assert(rest[k - 1] == sep);
            assert(rest[k - 1] == s[k]);
        }
    }
}

/// Split a character sequence at every occurrence of `sep`, keeping empty
/// segments; there is always at least one segment.
pub open spec fn spec_split(s: Seq<char>, sep: char) -> Seq<Seq<char>>
    decreases s.len(),
    via spec_split_decreases
{
    let k = seg_len(s, sep) as int;
    if k == s.len() {
        seq![s]
    } else {
        seq![s.subrange(0, k)] + spec_split(s.subrange(k + 1, s.len() as int), sep)
    }
}

#[via_fn]
proof fn spec_split_decreases(s: Seq<char>, sep: char) {
    lemma_seg_len_le(s, sep);
}

/// Split a character vector at a separator.
pub fn split_chars(s: &Vec<char>, sep: char) -> (r: Vec<Vec<char>>)
    ensures
        token_views(r@) == spec_split(s@, sep),
{
    let n: usize = s.len();
    let mut r: Vec<Vec<char>> = Vec::new();
    let mut start: usize = 0;
    let mut i: usize = 0;
    let mut cur: Vec<char> = Vec::new();
    proof {
        assert(s@.subrange(0, n as int) =~= s@);
        assert(token_views(r@) =~= Seq::<Seq<char>>::empty());
        assert(cur@ =~= s@.subrange(0, 0));
    }
    while i < n
        invariant
            n == s@.len(),
            start <= i <= n,
            cur@ == s@.subrange(start as int, i as int),
            forall|j: int| start <= j < i ==> s@[j] != sep,
            spec_split(s@, sep) == token_views(r@) + spec_split(
                s@.subrange(start as int, n as int),
                sep,
            ),
        decreases n - i,
    {
        let c = s[i];
        if c == sep {
            proof {
                let rest = s@.subrange(start as int, n as int);
                lemma_seg_len_chars(rest, sep);
                lemma_seg_len_le(rest, sep);
                assert forall|m: int| 0 <= m < (i - start) implies rest[m] != sep by {
                    assert(rest[m] == s@[start + m]);
                }
                assert(rest[(i - start) as int] == sep);
                if seg_len(rest, sep) < (i - start) {
                    assert(rest[seg_len(rest, sep) as int] == sep);
                    assert(false);
                }
                if seg_len(rest, sep) > (i - start) {
                    assert(rest[(i - start) as int] != sep);
                    assert(false);
                }
                assert(seg_len(rest, sep) == (i - start) as nat);
                assert(rest.subrange(0, (i - start) as int) =~= s@.subrange(
                    start as int,
                    i as int,
                ));
                assert(rest.subrange((i - start) + 1, rest.len() as int) =~= s@.subrange(
                    i + 1,
                    n as int,
                ));
                assert(spec_split(rest, sep) == seq![cur@] + spec_split(
                    s@.subrange(i + 1, n as int),
                    sep,
                ));
            }
            let ghost prev = r@;
            r.push(cur);
            cur = Vec::new();
            proof {
                assert(token_views(r@) =~= token_views(prev) + seq![
                    s@.subrange(start as int, i as int),
                ]);
                assert((token_views(prev) + seq![s@.subrange(start as int, i as int)])
                    + spec_split(s@.subrange(i + 1, n as int), sep) =~= token_views(prev) + (seq![
                    s@.subrange(start as int, i as int),
                ] + spec_split(s@.subrange(i + 1, n as int), sep)));
            }
            start = i + 1;
            i = i + 1;
            proof {
                assert(cur@ =~= s@.subrange(start as int, i as int));
            }
        } else {
            cur.push(c);
            i = i + 1;
            proof {
                assert(cur@ =~= s@.subrange(start as int, i as int));
            }
        }
    }
    proof {
        let rest = s@.subrange(start as int, n as int);
        lemma_seg_len_chars(rest, sep);
        lemma_seg_len_le(rest, sep);
        assert forall|m: int| 0 <= m < (n - start) implies rest[m] != sep by {
            assert(rest[m] == s@[start + m]);
        }
        if seg_len(rest, sep) < (n - start) {
            assert(rest[seg_len(rest, sep) as int] == sep);
            assert(false);
        }
        assert(seg_len(rest, sep) == rest.len());
        assert(spec_split(rest, sep) == seq![rest]);
        assert(cur@ =~= rest);
    }
    let ghost prev = r@;
    r.push(cur);
    proof {
        assert(token_views(r@) =~= token_views(prev) + seq![s@.subrange(start as int, n as int)]);
        assert(token_views(prev) + seq![s@.subrange(start as int, n as int)] =~= token_views(prev)
            + spec_split(s@.subrange(start as int, n as int), sep));
        assert(token_views(r@) =~= spec_split(s@, sep));
    }
    r
}

/// Leading whitespace count.
pub open spec fn lead_spaces(s: Seq<char>) -> nat
    decreases s.len(),
{
    if s.len() == 0 || !is_space_char(s[0]) {
        0
    } else {
        1 + lead_spaces(s.drop_first())
    }
}

pub proof fn lemma_lead_spaces(s: Seq<char>)
    ensures
        lead_spaces(s) <= s.len(),
        forall|j: int| 0 <= j < lead_spaces(s) ==> is_space_char(s[j]),
        lead_spaces(s) < s.len() ==> !is_space_char(s[lead_spaces(s) as int]),
    decreases s.len(),
{
    if s.len() != 0 && is_space_char(s[0]) {
        let rest = s.drop_first();
        lemma_lead_spaces(rest);
        assert forall|j: int| 0 <= j < lead_spaces(s) implies is_space_char(s[j]) by {
            if j > 0 {
                assert(is_space_char(rest[j - 1]));
                assert(rest[j - 1] == s[j]);
            }
        }
        if lead_spaces(s) < s.len() {
            let k = lead_spaces(s) as int;
            assert(!is_space_char(rest[k - 1]));
            assert(rest[k - 1] == s[k]);
        }
    }
}

/// ASCII-whitespace trim of both ends.
pub open spec fn spec_trim(s: Seq<char>) -> Seq<char> {
    let a = lead_spaces(s) as int;
    let b = lead_spaces(s.reverse()) as int;
    if a == s.len() {
        Seq::<char>::empty()
    } else {
        s.subrange(a, s.len() - b)
    }
}

/// Trim ASCII whitespace from both ends of a character vector.
pub fn trim_chars(s: &Vec<char>) -> (r: Vec<char>)
    ensures
        r@ == spec_trim(s@),
{
    let n: usize = s.len();
    let mut a: usize = 0;
    while a < n && is_space_char_at(s[a])
        invariant
            n == s@.len(),
            a <= n,
            forall|j: int| 0 <= j < a ==> is_space_char(s@[j]),
        decreases n - a,
    {
        a = a + 1;
    }
    proof {
        lemma_lead_spaces(s@);
        if lead_spaces(s@) < a {
            assert(is_space_char(s@[lead_spaces(s@) as int]));
            assert(false);
        }
        if a < n && lead_spaces(s@) > a {
            assert(is_space_char(s@[a as int]));
            assert(false);
        }
        if a == n {
            if lead_spaces(s@) > a {
                lemma_lead_spaces(s@);
                assert(false);
            }
        }
        assert(lead_spaces(s@) == a as nat);
    }
    if a == n {
        let r: Vec<char> = Vec::new();
        proof {
            assert(r@ =~= spec_trim(s@));
        }
        return r;
    }
    let mut b: usize = 0;
    while b < n - a && is_space_char_at(s[n - 1 - b])
        invariant
            n == s@.len(),
            a < n,
            b <= n - a,
            forall|j: int| 0 <= j < b ==> is_space_char(s@.reverse()[j]),
        decreases n - a - b,
    {
        proof {
            assert(s@.reverse()[b as int] == s@[n - 1 - b]);
        }
        b = b + 1;
    }
    proof {
        lemma_lead_spaces(s@.reverse());
        if lead_spaces(s@.reverse()) < b {
            assert(is_space_char(s@.reverse()[lead_spaces(s@.reverse()) as int]));
            assert(false);
        }
        if b < n - a && lead_spaces(s@.reverse()) > b {
            assert(is_space_char(s@.reverse()[b as int]));
            assert(s@.reverse()[b as int] == s@[n - 1 - b]);
            assert(false);
        }
        if b == n - a {
            assert(is_space_char(s@.reverse()[(b - 1) as int]));
            assert(s@.reverse()[(b - 1) as int] == s@[a as int]);
            assert(false);
        }
        assert(lead_spaces(s@.reverse()) == b as nat);
    }
    let mut r: Vec<char> = Vec::new();
    let mut i: usize = a;
    while i < n - b
        invariant
            a <= i <= n - b,
            b <= n,
            n == s@.len(),
            r@ == s@.subrange(a as int, i as int),
        decreases n - b - i,
    {
        r.push(s[i]);
        i = i + 1;
        proof {
            assert(r@ =~= s@.subrange(a as int, i as int));
        }
    }
    proof {
        assert(r@ =~= spec_trim(s@));
    }
    r
}

// ---------------------------------------------------------------------------
// Whitespace words and word trimming
// ---------------------------------------------------------------------------

/// Length of the run of non-space characters at the front of `s`.
pub open spec fn word_run(s: Seq<char>) -> nat
    decreases s.len(),
{
    if s.len() == 0 || is_space_char(s[0]) {
        0
    } else {
        1 + word_run(s.drop_first())
    }
}

pub proof fn lemma_word_run_le(s: Seq<char>)
    ensures
        word_run(s) <= s.len(),
    decreases s.len(),
{
    if s.len() != 0 && !is_space_char(s[0]) {
        lemma_word_run_le(s.drop_first());
    }
}

pub proof fn lemma_word_run_chars(s: Seq<char>)
    ensures
        forall|j: int| 0 <= j < word_run(s) ==> !is_space_char(s[j]),
        word_run(s) < s.len() ==> is_space_char(s[word_run(s) as int]),
    decreases s.len(),
{
    if s.len() != 0 && !is_space_char(s[0]) {
        let rest = s.drop_first();
        lemma_word_run_le(rest);
        lemma_word_run_chars(rest);
        assert forall|j: int| 0 <= j < word_run(s) implies !is_space_char(s[j]) by {
            if j > 0 {
                assert(!is_space_char(rest[j - 1]));
                assert(rest[j - 1] == s[j]);
            }
        }
        if word_run(s) < s.len() {
            let k = word_run(s) as int;
            assert(is_space_char(rest[k - 1]));
            assert(rest[k - 1] == s[k]);
        }
    }
}

/// The whitespace-separated words of a character sequence.
pub open spec fn spec_ws_words(s: Seq<char>) -> Seq<Seq<char>>
    decreases s.len(),
    via spec_ws_words_decreases
{
    if s.len() == 0 {
        Seq::<Seq<char>>::empty()
    } else if is_space_char(s[0]) {
        spec_ws_words(s.drop_first())
    } else {
        let k = word_run(s) as int;
        seq![s.subrange(0, k)] + spec_ws_words(s.subrange(k, s.len() as int))
    }
}

#[via_fn]
proof fn spec_ws_words_decreases(s: Seq<char>) {
    if s.len() != 0 && !is_space_char(s[0]) {
        lemma_word_run_le(s);
    }
}

/// Split a character vector at whitespace, dropping the separators.
pub fn ws_words(s: &Vec<char>) -> (r: Vec<Vec<char>>)
    ensures
        token_views(r@) == spec_ws_words(s@),
{
    let n: usize = s.len();
    let mut r: Vec<Vec<char>> = Vec::new();
    let mut i: usize = 0;
    proof {
        assert(s@.subrange(0, n as int) =~= s@);
        assert(token_views(r@) =~= Seq::<Seq<char>>::empty());
    }
    while i < n
        invariant
            n == s@.len(),
            i <= n,
            spec_ws_words(s@) == token_views(r@) + spec_ws_words(s@.subrange(i as int, n as int)),
        decreases n - i,
    {
        let ghost rest = s@.subrange(i as int, n as int);
        if is_space_char_at(s[i]) {
            proof {
                assert(rest[0] == s@[i as int]);
                assert(rest.drop_first() =~= s@.subrange(i + 1, n as int));
            }
            i = i + 1;
        } else {
            let start: usize = i;
            let mut j: usize = i + 1;
            while j < n && !is_space_char_at(s[j])
                invariant
                    n == s@.len(),
                    start < j <= n,
                    forall|k: int| start <= k < j ==> !is_space_char(s@[k]),
                decreases n - j,
            {
                j = j + 1;
            }
            let mut word: Vec<char> = Vec::new();
            let mut k: usize = start;
            while k < j
                invariant
                    start <= k <= j <= n,
                    n == s@.len(),
                    word@ == s@.subrange(start as int, k as int),
                decreases j - k,
            {
                word.push(s[k]);
                k = k + 1;
                proof {
                    assert(word@ =~= s@.subrange(start as int, k as int));
                }
            }
            proof {
                lemma_word_run_chars(rest);
                lemma_word_run_le(rest);
                assert forall|m: int| 0 <= m < (j - start) implies !is_space_char(rest[m]) by {
                    assert(rest[m] == s@[i + m]);
                }
                if word_run(rest) < (j - start) {
                    assert(!is_space_char(rest[word_run(rest) as int]));
                    assert(false);
                }
                if word_run(rest) > (j - start) {
                    if j < n {
                        assert(rest[(j - start) as int] == s@[j as int]);
                        assert(is_space_char(rest[(j - start) as int]));
                        assert(false);
                    } else {
                        assert(word_run(rest) <= rest.len());
                        assert(false);
                    }
                }
                assert(word_run(rest) == (j - start) as nat);
                assert(rest.subrange(0, (j - start) as int) =~= s@.subrange(
                    start as int,
                    j as int,
                ));
                assert(rest.subrange((j - start) as int, rest.len() as int) =~= s@.subrange(
                    j as int,
                    n as int,
                ));
                assert(spec_ws_words(rest) == seq![word@] + spec_ws_words(
                    s@.subrange(j as int, n as int),
                ));
            }
            let ghost prev = r@;
            r.push(word);
            proof {
                assert(token_views(r@) =~= token_views(prev) + seq![
                    s@.subrange(start as int, j as int),
                ]);
                assert((token_views(prev) + seq![s@.subrange(start as int, j as int)])
                    + spec_ws_words(s@.subrange(j as int, n as int)) =~= token_views(prev) + (seq![
                    s@.subrange(start as int, j as int),
                ] + spec_ws_words(s@.subrange(j as int, n as int))));
            }
            i = j;
        }
    }
    proof {
        assert(s@.subrange(n as int, n as int) =~= Seq::<char>::empty());
        assert(token_views(r@) + spec_ws_words(Seq::<char>::empty()) =~= token_views(r@));
    }
    r
}

/// Leading characters that are not token characters.
pub open spec fn lead_nonword(s: Seq<char>) -> nat
    decreases s.len(),
{
    if s.len() == 0 || is_token_char(s[0]) {
        0
    } else {
        1 + lead_nonword(s.drop_first())
    }
}

pub proof fn lemma_lead_nonword(s: Seq<char>)
    ensures
        lead_nonword(s) <= s.len(),
        forall|j: int| 0 <= j < lead_nonword(s) ==> !is_token_char(s[j]),
        lead_nonword(s) < s.len() ==> is_token_char(s[lead_nonword(s) as int]),
    decreases s.len(),
{
    if s.len() != 0 && !is_token_char(s[0]) {
        let rest = s.drop_first();
        lemma_lead_nonword(rest);
        assert forall|j: int| 0 <= j < lead_nonword(s) implies !is_token_char(s[j]) by {
            if j > 0 {
                assert(!is_token_char(rest[j - 1]));
                assert(rest[j - 1] == s[j]);
            }
        }
        if lead_nonword(s) < s.len() {
            let k = lead_nonword(s) as int;
            assert(is_token_char(rest[k - 1]));
            assert(rest[k - 1] == s[k]);
        }
    }
}

/// Trim characters that are not letters or digits from both ends.
pub open spec fn spec_trim_word(s: Seq<char>) -> Seq<char> {
    let a = lead_nonword(s) as int;
    let b = lead_nonword(s.reverse()) as int;
    if a == s.len() {
        Seq::<char>::empty()
    } else {
        s.subrange(a, s.len() - b)
    }
}

/// Trim non-alphanumeric characters from both ends of a word.
pub fn trim_word(s: &Vec<char>) -> (r: Vec<char>)
    ensures
        r@ == spec_trim_word(s@),
{
    let n: usize = s.len();
    let mut a: usize = 0;
    while a < n && !is_token_char_at(s[a])
        invariant
            n == s@.len(),
            a <= n,
            forall|j: int| 0 <= j < a ==> !is_token_char(s@[j]),
        decreases n - a,
    {
        a = a + 1;
    }
    proof {
        lemma_lead_nonword(s@);
        if lead_nonword(s@) < a {
            assert(is_token_char(s@[lead_nonword(s@) as int]));
            assert(false);
        }
        if a < n && lead_nonword(s@) > a {
            assert(!is_token_char(s@[a as int]));
            assert(false);
        }
        if a == n && lead_nonword(s@) > a {
            assert(false);
        }
        assert(lead_nonword(s@) == a as nat);
    }
    if a == n {
        let r: Vec<char> = Vec::new();
        proof {
            assert(r@ =~= spec_trim_word(s@));
        }
        return r;
    }
    let mut b: usize = 0;
    while b < n - a && !is_token_char_at(s[n - 1 - b])
        invariant
            n == s@.len(),
            a < n,
            b <= n - a,
            forall|j: int| 0 <= j < b ==> !is_token_char(s@.reverse()[j]),
        decreases n - a - b,
    {
        proof {
            assert(s@.reverse()[b as int] == s@[n - 1 - b]);
        }
        b = b + 1;
    }
    proof {
        lemma_lead_nonword(s@.reverse());
        if lead_nonword(s@.reverse()) < b {
            assert(!is_token_char(s@.reverse()[lead_nonword(s@.reverse()) as int]));
            assert(false);
        }
        if b < n - a && lead_nonword(s@.reverse()) > b {
            assert(!is_token_char(s@.reverse()[b as int]));
            assert(s@.reverse()[b as int] == s@[n - 1 - b]);
            assert(false);
        }
        if b == n - a {
            assert(!is_token_char(s@.reverse()[(b - 1) as int]));
            assert(s@.reverse()[(b - 1) as int] == s@[a as int]);
            assert(false);
        }
        assert(lead_nonword(s@.reverse()) == b as nat);
    }
    let mut r: Vec<char> = Vec::new();
    let mut i: usize = a;
    while i < n - b
        invariant
            a <= i <= n - b,
            b <= n,
            n == s@.len(),
            r@ == s@.subrange(a as int, i as int),
        decreases n - b - i,
    {
        r.push(s[i]);
        i = i + 1;
        proof {
            assert(r@ =~= s@.subrange(a as int, i as int));
        }
    }
    proof {
        assert(r@ =~= spec_trim_word(s@));
    }
    r
}

/// The characters at `i` continue with exactly `pat`.
pub fn seq_eq_at(s: &Vec<char>, i: usize, pat: &Vec<char>) -> (r: bool)
    requires
        i <= s@.len(),
    ensures
        r == (i + pat@.len() <= s@.len() && s@.subrange(i as int, i + pat@.len() as int) == pat@),
{
    let m = pat.len();
    let n = s.len();
    if n - i < m {
        return false;
    }
    let mut j: usize = 0;
    while j < m
        invariant
            n == s@.len(),
            i + m <= n,
            m == pat@.len(),
            j <= m,
            forall|k: int| 0 <= k < j ==> s@[i + k] == pat@[k],
        decreases m - j,
    {
        proof {
            assert(i + j < s@.len());
        }
        if s[i + j] != pat[j] {
            proof {
                assert(s@.subrange(i as int, i + pat@.len() as int)[j as int] == s@[i + j]);
            }
            return false;
        }
        j = j + 1;
    }
    proof {
        assert(s@.subrange(i as int, i + pat@.len() as int) =~= pat@);
    }
    true
}

} // verus!
