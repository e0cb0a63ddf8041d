//! The lexical level of the configuration language.
//!
//! Blanks separate lexemes and `#` starts a comment that runs to the end of
//! the line. `;`, `{` and `}` stand alone. A quote (`"` or `'`) opens a quoted
//! string that runs to the next copy of the same quote. Any other run of
//! characters is a word.

use vstd::prelude::*;

verus! {

/// A lexeme with its text: the model of a `Token`.
pub enum Lexeme {
    Word(Seq<char>),
    Quoted(Seq<char>),
    Semi,
    Open,
    Close,
}

pub enum TokenKind {
    /// A bare word.
    Word(String),
    /// The text between a pair of quotes.
    Quoted(String),
    Semi,
    Open,
    Close,
}

/// A lexeme and the offset, in characters, at which it starts.
pub struct Token {
    pub kind: TokenKind,
    pub offset: usize,
}

impl View for Token {
    type V = Lexeme;

    open spec fn view(&self) -> Lexeme {
        match self.kind {
            TokenKind::Word(s) => Lexeme::Word(s@),
            TokenKind::Quoted(s) => Lexeme::Quoted(s@),
            TokenKind::Semi => Lexeme::Semi,
            TokenKind::Open => Lexeme::Open,
            TokenKind::Close => Lexeme::Close,
        }
    }
}

pub open spec fn lexemes(ts: Seq<Token>) -> Seq<Lexeme> {
    ts.map_values(|t: Token| t@)
}

pub open spec fn is_blank(c: char) -> bool {
    c == ' ' || c == '\t' || c == '\n' || c == '\r'
}

pub open spec fn is_quote(c: char) -> bool {
    c == '"' || c == '\''
}

/// A character that may stand in a word.
pub open spec fn is_word_char(c: char) -> bool {
    !is_blank(c) && !is_quote(c) && c != ';' && c != '{' && c != '}' && c != '#'
}

/// Where the run of word characters that starts at `i` ends.
pub open spec fn word_end(s: Seq<char>, i: int) -> int
    decreases s.len() - i,
{
    if 0 <= i < s.len() && is_word_char(s[i]) {
        word_end(s, i + 1)
    } else {
        i
    }
}

/// The first index from `i` on that holds `c`, or the length of `s`.
pub open spec fn find_from(s: Seq<char>, i: int, c: char) -> int
    decreases s.len() - i,
{
    if 0 <= i < s.len() && s[i] != c {
        find_from(s, i + 1, c)
    } else {
        i
    }
}

pub open spec fn cons(t: Lexeme, rest: Option<Seq<Lexeme>>) -> Option<Seq<Lexeme>> {
    prefixed(seq![t], rest)
}

pub open spec fn prefixed(p: Seq<Lexeme>, rest: Option<Seq<Lexeme>>) -> Option<Seq<Lexeme>> {
    match rest {
        Some(r) => Some(p + r),
        None => None,
    }
}

/// The lexemes of `s` from index `i` on, or `None` where a quoted string is
/// not closed.
pub open spec fn lex_from(s: Seq<char>, i: int) -> Option<Seq<Lexeme>>
    decreases s.len() - i,
    via lex_from_decreases
{
    if !(0 <= i < s.len()) {
        Some(seq![])
    } else if is_blank(s[i]) {
        lex_from(s, i + 1)
    } else if s[i] == '#' {
        lex_from(s, find_from(s, i + 1, '\n'))
    } else if s[i] == ';' {
        cons(Lexeme::Semi, lex_from(s, i + 1))
    } else if s[i] == '{' {
        cons(Lexeme::Open, lex_from(s, i + 1))
    } else if s[i] == '}' {
        cons(Lexeme::Close, lex_from(s, i + 1))
    } else if is_quote(s[i]) {
        let e = find_from(s, i + 1, s[i]);
        if e < s.len() {
            cons(Lexeme::Quoted(s.subrange(i + 1, e)), lex_from(s, e + 1))
        } else {
            None
        }
    } else {
        let e = word_end(s, i);
        cons(Lexeme::Word(s.subrange(i, e)), lex_from(s, e))
    }
}

#[via_fn]
proof fn lex_from_decreases(s: Seq<char>, i: int) {
    if 0 <= i < s.len() {
        lemma_find_from_bounds(s, i + 1, '\n');
        lemma_find_from_bounds(s, i + 1, s[i]);
        lemma_word_end_bounds(s, i + 1);
    }
}

/// Where lexing from index `i` on fails: the first quote, outside comments
/// and other quoted strings, that is never closed. It is the length of `s`
/// when there is none.
pub open spec fn lex_fail_from(s: Seq<char>, i: int) -> int
    decreases s.len() - i,
    via lex_fail_from_decreases
{
    if !(0 <= i < s.len()) {
        s.len() as int
    } else if is_blank(s[i]) || s[i] == ';' || s[i] == '{' || s[i] == '}' {
        lex_fail_from(s, i + 1)
    } else if s[i] == '#' {
        lex_fail_from(s, find_from(s, i + 1, '\n'))
    } else if is_quote(s[i]) {
        let e = find_from(s, i + 1, s[i]);
        if e < s.len() {
            lex_fail_from(s, e + 1)
        } else {
            i
        }
    } else {
        lex_fail_from(s, word_end(s, i))
    }
}

#[via_fn]
proof fn lex_fail_from_decreases(s: Seq<char>, i: int) {
    if 0 <= i < s.len() {
        lemma_find_from_bounds(s, i + 1, '\n');
        lemma_find_from_bounds(s, i + 1, s[i]);
        lemma_word_end_bounds(s, i + 1);
    }
}

/// The offsets at which the lexemes of `s` from index `i` on start, up to
/// any quote that is never closed.
pub open spec fn starts_from(s: Seq<char>, i: int) -> Seq<int>
    decreases s.len() - i,
    via starts_from_decreases
{
    if !(0 <= i < s.len()) {
        seq![]
    } else if is_blank(s[i]) {
        starts_from(s, i + 1)
    } else if s[i] == '#' {
        starts_from(s, find_from(s, i + 1, '\n'))
    } else if s[i] == ';' || s[i] == '{' || s[i] == '}' {
        seq![i] + starts_from(s, i + 1)
    } else if is_quote(s[i]) {
        let e = find_from(s, i + 1, s[i]);
        if e < s.len() {
            seq![i] + starts_from(s, e + 1)
        } else {
            seq![]
        }
    } else {
        seq![i] + starts_from(s, word_end(s, i))
    }
}

#[via_fn]
proof fn starts_from_decreases(s: Seq<char>, i: int) {
    if 0 <= i < s.len() {
        lemma_find_from_bounds(s, i + 1, '\n');
        lemma_find_from_bounds(s, i + 1, s[i]);
        lemma_word_end_bounds(s, i + 1);
    }
}

/// The offsets at which the lexemes of the whole text start.
pub open spec fn lexeme_starts(s: Seq<char>) -> Seq<int> {
    starts_from(s, 0)
}

pub open spec fn offsets(ts: Seq<Token>) -> Seq<int> {
    ts.map_values(|t: Token| t.offset as int)
}

/// The lexemes of the whole text.
pub open spec fn lex(s: Seq<char>) -> Option<Seq<Lexeme>> {
    lex_from(s, 0)
}

pub proof fn lemma_word_end_bounds(s: Seq<char>, i: int)
    requires
        0 <= i <= s.len(),
    ensures
        i <= word_end(s, i) <= s.len(),
        forall|k: int| i <= k < word_end(s, i) ==> is_word_char(#[trigger] s[k]),
        word_end(s, i) < s.len() ==> !is_word_char(s[word_end(s, i)]),
    decreases s.len() - i,
{
    if i < s.len() && is_word_char(s[i]) {
        lemma_word_end_bounds(s, i + 1);
    }
}

pub proof fn lemma_find_from_bounds(s: Seq<char>, i: int, c: char)
    requires
        0 <= i <= s.len(),
    ensures
        i <= find_from(s, i, c) <= s.len(),
        forall|k: int| i <= k < find_from(s, i, c) ==> #[trigger] s[k] != c,
        find_from(s, i, c) < s.len() ==> s[find_from(s, i, c)] == c,
    decreases s.len() - i,
{
    if i < s.len() && s[i] != c {
        lemma_find_from_bounds(s, i + 1, c);
    }
}

/// Where a run of word characters ends does not depend on what precedes it.
proof fn lemma_word_end_shift(s: Seq<char>, i: int, k: int)
    requires
        0 <= i,
        0 <= k,
        i + k <= s.len(),
    ensures
        word_end(s, i + k) == i + word_end(s.subrange(i, s.len() as int), k),
    decreases s.len() - (i + k),
{
    let t = s.subrange(i, s.len() as int);
    if i + k < s.len() {
        assert(t[k] == s[i + k]);
        if is_word_char(s[i + k]) {
            lemma_word_end_shift(s, i, k + 1);
            assert(i + (k + 1) == i + k + 1);
        }
    }
}

/// Where the next copy of a character stands does not depend on what
/// precedes it.
proof fn lemma_find_from_shift(s: Seq<char>, i: int, k: int, c: char)
    requires
        0 <= i,
        0 <= k,
        i + k <= s.len(),
    ensures
        find_from(s, i + k, c) == i + find_from(s.subrange(i, s.len() as int), k, c),
    decreases s.len() - (i + k),
{
    let t = s.subrange(i, s.len() as int);
    if i + k < s.len() {
        assert(t[k] == s[i + k]);
        if s[i + k] != c {
            lemma_find_from_shift(s, i, k + 1, c);
            assert(i + (k + 1) == i + k + 1);
        }
    }
}

/// The lexemes from index `i + k` on depend only on the text from `i` on.
pub proof fn lemma_lex_shift(s: Seq<char>, i: int, k: int)
    requires
        0 <= i,
        0 <= k,
        i + k <= s.len(),
    ensures
        lex_from(s, i + k) == lex_from(s.subrange(i, s.len() as int), k),
    decreases s.len() - (i + k),
{
    let t = s.subrange(i, s.len() as int);
    let j = i + k;
    if j < s.len() {
        assert(t[k] == s[j]);
        let c = s[j];
        if is_blank(c) || c == ';' || c == '{' || c == '}' {
            lemma_lex_shift(s, i, k + 1);
            assert(i + (k + 1) == j + 1);
        } else if c == '#' {
            lemma_find_from_shift(s, i, k + 1, '\n');
            lemma_find_from_bounds(t, k + 1, '\n');
            let e = find_from(t, k + 1, '\n');
            lemma_lex_shift(s, i, e);
        } else if is_quote(c) {
            lemma_find_from_shift(s, i, k + 1, c);
            lemma_find_from_bounds(t, k + 1, c);
            let e = find_from(t, k + 1, c);
            if e < t.len() {
                assert(s.subrange(j + 1, i + e) =~= t.subrange(k + 1, e));
                lemma_lex_shift(s, i, e + 1);
                assert(i + (e + 1) == i + e + 1);
            }
        } else {
            lemma_word_end_shift(s, i, k);
            lemma_word_end_bounds(t, k);
            let e = word_end(t, k);
            lemma_word_end_bounds(t, k + 1);
            assert(e > k);
            assert(s.subrange(j, i + e) =~= t.subrange(k, e));
            lemma_lex_shift(s, i, e);
        }
    }
}

/// The lexemes of the text after its first `n` characters.
proof fn lemma_lex_skip(s: Seq<char>, n: int, r: Seq<char>)
    requires
        0 <= n <= s.len(),
        r == s.subrange(n, s.len() as int),
    ensures
        lex_from(s, n) == lex(r),
{
    lemma_lex_shift(s, n, 0);
}

/// A blank adds no lexeme.
pub proof fn lemma_lex_blank(c: char, r: Seq<char>)
    requires
        is_blank(c),
    ensures
        lex(seq![c] + r) == lex(r),
{
    let s = seq![c] + r;
    assert(s[0] == c);
    assert(s.subrange(1, s.len() as int) =~= r);
    lemma_lex_skip(s, 1, r);
}

/// A run of blanks adds no lexeme.
pub proof fn lemma_lex_blanks(p: Seq<char>, r: Seq<char>)
    requires
        forall|k: int| 0 <= k < p.len() ==> is_blank(#[trigger] p[k]),
    ensures
        lex(p + r) == lex(r),
    decreases p.len(),
{
    if p.len() > 0 {
        let tail = p.subrange(1, p.len() as int);
        assert forall|k: int| 0 <= k < tail.len() implies is_blank(#[trigger] tail[k]) by {
            assert(tail[k] == p[k + 1]);
        }
        lemma_lex_blanks(tail, r);
        assert(p + r =~= seq![p[0]] + (tail + r));
        lemma_lex_blank(p[0], tail + r);
    }
}

/// `;`, `{` and `}` stand alone.
pub proof fn lemma_lex_punct(c: char, r: Seq<char>)
    requires
        c == ';' || c == '{' || c == '}',
    ensures
        lex(seq![c] + r) == cons(
            if c == ';' {
                Lexeme::Semi
            } else if c == '{' {
                Lexeme::Open
            } else {
                Lexeme::Close
            },
            lex(r),
        ),
{
    let s = seq![c] + r;
    assert(s[0] == c);
    assert(s.subrange(1, s.len() as int) =~= r);
    lemma_lex_skip(s, 1, r);
}

/// A word followed by a character that cannot continue it.
pub proof fn lemma_lex_word(w: Seq<char>, r: Seq<char>)
    requires
        w.len() > 0,
        forall|k: int| 0 <= k < w.len() ==> is_word_char(#[trigger] w[k]),
        r.len() > 0 ==> !is_word_char(r[0]),
    ensures
        lex(w + r) == cons(Lexeme::Word(w), lex(r)),
{
    let s = w + r;
    assert(s[0] == w[0]);
    lemma_word_end_of(s, w, 0);
    assert(s.subrange(0, w.len() as int) =~= w);
    assert(s.subrange(w.len() as int, s.len() as int) =~= r);
    lemma_lex_skip(s, w.len() as int, r);
}

proof fn lemma_word_end_of(s: Seq<char>, w: Seq<char>, k: int)
    requires
        0 <= k <= w.len(),
        w.len() <= s.len(),
        forall|j: int| 0 <= j < w.len() ==> s[j] == w[j] && is_word_char(#[trigger] w[j]),
        w.len() < s.len() ==> !is_word_char(s[w.len() as int]),
    ensures
        word_end(s, k) == w.len(),
    decreases w.len() - k,
{
    if k < w.len() {
        assert(s[k] == w[k]);
        lemma_word_end_of(s, w, k + 1);
    }
}

/// A string between double quotes that holds none.
pub proof fn lemma_lex_quoted(q: Seq<char>, r: Seq<char>)
    requires
        !q.contains('"'),
    ensures
        lex(seq!['"'] + q + seq!['"'] + r) == cons(Lexeme::Quoted(q), lex(r)),
{
    let s = seq!['"'] + q + seq!['"'] + r;
    let e = q.len() + 1int;
    assert(s[0] == '"');
    assert(s[e] == '"');
    assert forall|j: int| 1 <= j < e implies s[j] != '"' by {
        assert(s[j] == q[j - 1]);
        if s[j] == '"' {
            assert(q.contains('"'));
        }
    }
    lemma_find_from_exact(s, 1, e, '"');
    assert(s.subrange(1, e) =~= q);
    assert(s.subrange(e + 1, s.len() as int) =~= r);
    lemma_lex_skip(s, e + 1, r);
}

proof fn lemma_find_from_exact(s: Seq<char>, i: int, e: int, c: char)
    requires
        0 <= i <= e < s.len(),
        s[e] == c,
        forall|j: int| i <= j < e ==> #[trigger] s[j] != c,
    ensures
        find_from(s, i, c) == e,
    decreases e - i,
{
    if i < e {
        lemma_find_from_exact(s, i + 1, e, c);
    }
}

/// The characters of `text`, one by one.
pub fn chars_of(text: &str) -> (r: Vec<char>)
    ensures
        r@ == text@,
{
    let mut r: Vec<char> = Vec::new();
    for c in it: text.chars()
        invariant
            it.seq() == text@,
            r@ == it.seq().take(it.index() as int),
    {
        r.push(c);
    }
    r
}

/// The index of the first `c` in `s` from `i` on, or the length of `s`.
fn scan_to(s: &Vec<char>, i: usize, c: char) -> (r: usize)
    requires
        i <= s.len(),
    ensures
        r == find_from(s@, i as int, c),
{
    let mut j = i;
    while j < s.len() && s[j] != c
        invariant
            i <= j <= s.len(),
            find_from(s@, j as int, c) == find_from(s@, i as int, c),
        decreases s.len() - j,
    {
        j = j + 1;
    }
    j
}

/// The end of the run of word characters that starts at `i`.
fn scan_word(s: &Vec<char>, i: usize) -> (r: usize)
    requires
        i <= s.len(),
    ensures
        r == word_end(s@, i as int),
{
    let mut j = i;
    while j < s.len() && is_word_char_exec(s[j])
        invariant
            i <= j <= s.len(),
            word_end(s@, j as int) == word_end(s@, i as int),
        decreases s.len() - j,
    {
        j = j + 1;
    }
    j
}

fn is_word_char_exec(c: char) -> (r: bool)
    ensures
        r == is_word_char(c),
{
    !(c == ' ' || c == '\t' || c == '\n' || c == '\r' || c == '"' || c == '\'' || c == ';'
        || c == '{' || c == '}' || c == '#')
}

/// Splits `text` into tokens. Fails, with the offset of the opening quote,
/// exactly where a quoted string is not closed.
pub fn tokenize(text: &str) -> (r: Result<Vec<Token>, usize>)
    ensures
        match r {
            Ok(ts) => lex(text@) == Some(lexemes(ts@)) && offsets(ts@) == lexeme_starts(text@)
                && forall|k: int| 0 <= k < ts.len() ==> #[trigger] ts@[k].offset < text@.len(),
            Err(off) => lex(text@) is None && off == lex_fail_from(text@, 0) && off < text@.len()
                && is_quote(text@[off as int]),
        },
{
    let s = chars_of(text);
    let n = s.len();
    let mut ts: Vec<Token> = Vec::new();
    let mut i: usize = 0;
    while i < n
        invariant
            n == s.len(),
            s@ == text@,
            i <= n,
            lex(s@) == prefixed(lexemes(ts@), lex_from(s@, i as int)),
            lex_fail_from(s@, 0) == lex_fail_from(s@, i as int),
            lexeme_starts(s@) == offsets(ts@) + starts_from(s@, i as int),
            forall|k: int| 0 <= k < ts.len() ==> #[trigger] ts@[k].offset < n,
        decreases n - i,
    {
        let c = s[i];
        let ghost before = lexemes(ts@);
        let ghost before_offsets = offsets(ts@);
        if c == ' ' || c == '\t' || c == '\n' || c == '\r' {
            i = i + 1;
        } else if c == '#' {
            proof { lemma_find_from_bounds(s@, i + 1, '\n'); }
            i = scan_to(&s, i + 1, '\n');
        } else if c == ';' || c == '{' || c == '}' {
            let kind = if c == ';' {
                TokenKind::Semi
            } else if c == '{' {
                TokenKind::Open
            } else {
                TokenKind::Close
            };
            let t = Token { kind, offset: i };
            let ghost l = t@;
            ts.push(t);
            proof {
                let next: int = i + 1;
                assert(lexemes(ts@) =~= before.push(l));
                assert(offsets(ts@) =~= before_offsets.push(i as int));
                assert(before_offsets + (seq![i as int] + starts_from(s@, next)) =~= offsets(ts@)
                    + starts_from(s@, next));
                lemma_prefixed_push(before, l, lex_from(s@, i + 1));
            }
            i = i + 1;
        } else if c == '"' || c == '\'' {
            proof { lemma_find_from_bounds(s@, i + 1, c); }
            let e = scan_to(&s, i + 1, c);
            if e >= n {
                proof {
                    lemma_prefixed_none(before);
                }
                return Err(i);
            }
            let body = String::from_str(text.substring_char(i + 1, e));
            let t = Token { kind: TokenKind::Quoted(body), offset: i };
            let ghost l = t@;
            ts.push(t);
            proof {
                let next: int = e + 1;
                assert(lexemes(ts@) =~= before.push(l));
                assert(offsets(ts@) =~= before_offsets.push(i as int));
                assert(before_offsets + (seq![i as int] + starts_from(s@, next)) =~= offsets(ts@)
                    + starts_from(s@, next));
                lemma_prefixed_push(before, l, lex_from(s@, e + 1));
            }
            i = e + 1;
        } else {
            proof { lemma_word_end_bounds(s@, i as int); }
            let e = scan_word(&s, i);
            let word = String::from_str(text.substring_char(i, e));
            let t = Token { kind: TokenKind::Word(word), offset: i };
            let ghost l = t@;
            ts.push(t);
            proof {
                let next: int = e as int;
                assert(lexemes(ts@) =~= before.push(l));
                assert(offsets(ts@) =~= before_offsets.push(i as int));
                assert(before_offsets + (seq![i as int] + starts_from(s@, next)) =~= offsets(ts@)
                    + starts_from(s@, next));
                lemma_prefixed_push(before, l, lex_from(s@, e as int));
            }
            i = e;
        }
    }
    proof {
        assert(lexemes(ts@) + seq![] =~= lexemes(ts@));
    }
    Ok(ts)
}

pub proof fn lemma_prefixed_push(p: Seq<Lexeme>, l: Lexeme, rest: Option<Seq<Lexeme>>)
    ensures
        prefixed(p, cons(l, rest)) == prefixed(p.push(l), rest),
{
    if let Some(r) = rest {
        assert(p + (seq![l] + r) =~= p.push(l) + r);
    }
}

proof fn lemma_prefixed_none(p: Seq<Lexeme>)
    ensures
        prefixed(p, None) is None,
{
}

} // verus!
