//! The tokenizer: scans a line of raw text, left to right, into an
//! ordered sequence of classified lexical units.
//!
//! At each position a fixed, ordered list of recognizer rules is
//! tried — number, quote, identifier, whitespace, dot, boolean,
//! string — and the first rule whose leading character matches its
//! class wins. The order matters: a leading digit is never mistaken
//! for part of an identifier, and a leading `#` or `'` is recognized
//! before the generic identifier rule runs.

use vstd::prelude::*;
use vstd::string::*;

verus! {

/// Mathematical model of a [`Token`].
pub enum TokenV {
    Number(Seq<char>),
    Quote,
    Identifier(Seq<char>),
    WhiteSpace,
    Dot,
    Bool(bool),
    Str(Seq<char>),
}

/// A classified lexical unit produced by scanning raw text.
///
/// A `Number` payload is non-empty ASCII digit text, an `Identifier`
/// payload is non-empty alphabetic text, and a `String` payload is the
/// literal content without its delimiting quote characters (it may be
/// empty).
#[derive(Debug)]
pub enum Token {
    Number(String),
    Quote,
    Identifier(String),
    WhiteSpace,
    Dot,
    Bool(bool),
    String(String),
}

impl View for Token {
    type V = TokenV;

    open spec fn view(&self) -> TokenV {
        match self {
            Token::Number(s) => TokenV::Number(s@),
            Token::Quote => TokenV::Quote,
            Token::Identifier(s) => TokenV::Identifier(s@),
            Token::WhiteSpace => TokenV::WhiteSpace,
            Token::Dot => TokenV::Dot,
            Token::Bool(b) => TokenV::Bool(*b),
            Token::String(s) => TokenV::Str(s@),
        }
    }
}

/// The views of a sequence of tokens.
pub open spec fn views_of_tokens(ts: Seq<Token>) -> Seq<TokenV> {
    ts.map_values(|t: Token| t@)
}

/// An error from a failed scan. The whole call fails: no partial
/// token sequence is ever returned.
#[derive(Debug)]
pub enum TokenizeError {
    /// No recognizer rule matches the character at this position.
    UnknownChar { ch: char, pos: usize },
    /// A string literal that begins at this position has no closing
    /// delimiter.
    UnterminatedString { pos: usize },
}

/// Mathematical model of a [`TokenizeError`].
pub enum TokenizeErrorV {
    UnknownChar { ch: char, pos: int },
    UnterminatedString { pos: int },
}

impl View for TokenizeError {
    type V = TokenizeErrorV;

    open spec fn view(&self) -> TokenizeErrorV {
        match self {
            TokenizeError::UnknownChar { ch, pos } => TokenizeErrorV::UnknownChar {
                ch: *ch,
                pos: *pos as int,
            },
            TokenizeError::UnterminatedString { pos } => TokenizeErrorV::UnterminatedString {
                pos: *pos as int,
            },
        }
    }
}

/// Whether a character is an ASCII decimal digit.
pub open spec fn is_digit(c: char) -> bool {
    ('0' as u32) <= (c as u32) && (c as u32) <= ('9' as u32)
}

/// Whether a character beyond the ASCII range is alphabetic.
///
/// This names the result of `char::is_alphabetic` on such characters,
/// which depends on the character alone; the Unicode letter
/// categories are not spelled out here.
pub uninterp spec fn unicode_letter(c: char) -> bool;

/// Whether a character is alphabetic: within the ASCII range exactly
/// the letters `a`–`z` and `A`–`Z`, beyond it the Unicode letter
/// property named by [`unicode_letter`].
pub open spec fn is_letter(c: char) -> bool {
    if (c as u32) < 128 {
        (('a' as u32) <= (c as u32) && (c as u32) <= ('z' as u32)) || (('A' as u32) <= (c as u32)
            && (c as u32) <= ('Z' as u32))
    } else {
        unicode_letter(c)
    }
}

/// Relies on `char::is_alphabetic`: a character in the ASCII range is
/// alphabetic exactly when it is an ASCII letter, and beyond that
/// range the result is a fixed property of the character, named by
/// [`unicode_letter`].
pub assume_specification[ char::is_alphabetic ](c: char) -> (r: bool)
    ensures
        r == is_letter(c),
        (c as u32) >= 128 ==> r == unicode_letter(c),
;

/// One character class that a maximal-run recognizer rule consumes.
#[derive(Clone, Copy, Debug)]
pub enum CharClass {
    /// An ASCII decimal digit.
    Digit,
    /// An alphabetic character.
    Letter,
    /// Any character other than the string delimiter `"`.
    StringContent,
}

/// Whether a character belongs to a class.
pub open spec fn in_class(k: CharClass, c: char) -> bool {
    match k {
        CharClass::Digit => is_digit(c),
        CharClass::Letter => is_letter(c),
        CharClass::StringContent => c != '"',
    }
}

/// The end of the maximal run of characters of class `k` that starts
/// at position `i` of `s`.
pub open spec fn run_end(s: Seq<char>, i: int, k: CharClass) -> int
    decreases s.len() - i,
{
    if i < 0 || i >= s.len() || !in_class(k, s[i]) {
        i
    } else {
        run_end(s, i + 1, k)
    }
}

/// The maximal run starting at `i` reaches from `i` to `run_end`,
/// every character in it belongs to the class, and the run is indeed
/// maximal.
pub proof fn lemma_run_end(s: Seq<char>, i: int, k: CharClass)
    requires
        0 <= i <= s.len(),
    ensures
        i <= run_end(s, i, k) <= s.len(),
        forall|j: int| i <= j < run_end(s, i, k) ==> in_class(k, s[j]),
        run_end(s, i, k) == s.len() || !in_class(k, s[run_end(s, i, k)]),
    decreases s.len() - i,
{
    if i < s.len() && in_class(k, s[i]) {
        lemma_run_end(s, i + 1, k);
    }
}

/// A position bounded by a class run on both sides is the run's end.
proof fn lemma_run_end_unique(s: Seq<char>, i: int, j: int, k: CharClass)
    requires
        0 <= i <= j <= s.len(),
        forall|m: int| i <= m < j ==> in_class(k, s[m]),
        j == s.len() || !in_class(k, s[j]),
    ensures
        run_end(s, i, k) == j,
    decreases j - i,
{
    if i < j {
        lemma_run_end_unique(s, i + 1, j, k);
    }
}

/// The outcome of trying the recognizer rules at one position: a
/// token together with the position just past it, or an error.
pub enum Scan {
    Tok { t: TokenV, next: int },
    Fail { e: TokenizeErrorV },
}

/// One scan step at position `i`: the ordered recognizer rules of the
/// tokenizer, applied to the first rule whose leading character
/// matches.
///
/// Boolean literals are matched by their two-character prefixes `#t`
/// and `#f`; text following the prefix is scanned separately.
pub open spec fn scan_step(s: Seq<char>, i: int) -> Scan
    recommends
        0 <= i < s.len(),
{
    let c = s[i];
    if is_digit(c) {
        Scan::Tok {
            t: TokenV::Number(s.subrange(i, run_end(s, i, CharClass::Digit))),
            next: run_end(s, i, CharClass::Digit),
        }
    } else if c == '\'' {
        Scan::Tok { t: TokenV::Quote, next: i + 1 }
    } else if is_letter(c) {
        Scan::Tok {
            t: TokenV::Identifier(s.subrange(i, run_end(s, i, CharClass::Letter))),
            next: run_end(s, i, CharClass::Letter),
        }
    } else if c == ' ' {
        Scan::Tok { t: TokenV::WhiteSpace, next: i + 1 }
    } else if c == '.' {
        Scan::Tok { t: TokenV::Dot, next: i + 1 }
    } else if c == '#' && i + 1 < s.len() && s[i + 1] == 't' {
        Scan::Tok { t: TokenV::Bool(true), next: i + 2 }
    } else if c == '#' && i + 1 < s.len() && s[i + 1] == 'f' {
        Scan::Tok { t: TokenV::Bool(false), next: i + 2 }
    } else if c == '"' {
        let j = run_end(s, i + 1, CharClass::StringContent);
        if j < s.len() {
            Scan::Tok { t: TokenV::Str(s.subrange(i + 1, j)), next: j + 1 }
        } else {
            Scan::Fail { e: TokenizeErrorV::UnterminatedString { pos: i } }
        }
    } else {
        Scan::Fail { e: TokenizeErrorV::UnknownChar { ch: c, pos: i } }
    }
}

/// The token sequence scanned from position `i` of `s` to the end, or
/// the first error met on the way.
pub open spec fn spec_tokenize_from(s: Seq<char>, i: int) -> Result<Seq<TokenV>, TokenizeErrorV>
    decreases s.len() - i,
    when 0 <= i
{
    if i >= s.len() {
        Ok(Seq::empty())
    } else {
        proof {
            lemma_run_end(s, i, CharClass::Digit);
            lemma_run_end(s, i, CharClass::Letter);
            lemma_run_end(s, i + 1, CharClass::StringContent);
        }
        match scan_step(s, i) {
            Scan::Tok { t, next } => match spec_tokenize_from(s, next) {
                Ok(rest) => Ok(seq![t] + rest),
                Err(e) => Err(e),
            },
            Scan::Fail { e } => Err(e),
        }
    }
}

/// The token sequence of a whole text, or the first scan error.
pub open spec fn spec_tokenize(s: Seq<char>) -> Result<Seq<TokenV>, TokenizeErrorV> {
    spec_tokenize_from(s, 0)
}

/// The payload invariant of one token: number text is non-empty digit
/// text, identifier text is non-empty alphabetic text.
pub open spec fn token_wf(t: TokenV) -> bool {
    match t {
        TokenV::Number(s) => s.len() > 0 && (forall|j: int|
            0 <= j < s.len() ==> is_digit(#[trigger] s[j])),
        TokenV::Identifier(s) => s.len() > 0 && (forall|j: int|
            0 <= j < s.len() ==> is_letter(#[trigger] s[j])),
        _ => true,
    }
}

/// The payload invariant over a whole token sequence.
pub open spec fn tokens_wf(ts: Seq<TokenV>) -> bool {
    forall|k: int| 0 <= k < ts.len() ==> token_wf(#[trigger] ts[k])
}

/// Every token that a successful scan produces satisfies the payload
/// invariant.
pub proof fn lemma_tokenize_from_wf(s: Seq<char>, i: int)
    requires
        0 <= i,
    ensures
        spec_tokenize_from(s, i) matches Ok(ts) ==> tokens_wf(ts),
    decreases s.len() - i,
{
    if i < s.len() {
        lemma_run_end(s, i, CharClass::Digit);
        lemma_run_end(s, i, CharClass::Letter);
        lemma_run_end(s, i + 1, CharClass::StringContent);
        match scan_step(s, i) {
            Scan::Tok { t, next } => {
                lemma_tokenize_from_wf(s, next);
                match spec_tokenize_from(s, next) {
                    Ok(rest) => {
                        assert(token_wf(t));
                        assert forall|k: int|
                            0 <= k < (seq![t] + rest).len() implies token_wf(
                            #[trigger] (seq![t] + rest)[k],
                        ) by {
                            if k > 0 {
                                assert((seq![t] + rest)[k] == rest[k - 1]);
                            }
                        }
                    },
                    Err(_) => {},
                }
            },
            Scan::Fail { e } => {},
        }
    }
}

/// Every token of a successful whole-text scan satisfies the payload
/// invariant.
pub proof fn lemma_tokenize_wf(s: Seq<char>)
    ensures
        spec_tokenize(s) matches Ok(ts) ==> tokens_wf(ts),
{
    lemma_tokenize_from_wf(s, 0);
}

/// A single character on which every recognizer rule fails is
/// reported as an unknown-token error naming that character and its
/// position.
pub proof fn lemma_unknown_single_char(c: char)
    requires
        !is_digit(c),
        c != '\'',
        !is_letter(c),
        c != ' ',
        c != '.',
        c != '#',
        c != '"',
    ensures
        spec_tokenize(seq![c]) == Err::<Seq<TokenV>, TokenizeErrorV>(
            TokenizeErrorV::UnknownChar { ch: c, pos: 0 },
        ),
{
    let s = seq![c];
    assert(s[0] == c);
    assert(scan_step(s, 0) == (Scan::Fail {
        e: TokenizeErrorV::UnknownChar { ch: c, pos: 0 },
    }));
}

/// A non-empty text of decimal digits scans to a single number token
/// holding exactly that text.
pub proof fn lemma_tokenize_all_digits(s: Seq<char>)
    requires
        s.len() > 0,
        forall|j: int| 0 <= j < s.len() ==> is_digit(#[trigger] s[j]),
    ensures
        spec_tokenize(s) == Ok::<_, TokenizeErrorV>(seq![TokenV::Number(s)]),
{
    lemma_run_end_unique(s, 0, s.len() as int, CharClass::Digit);
    assert(s.subrange(0, s.len() as int) =~= s);
    assert(scan_step(s, 0) == (Scan::Tok { t: TokenV::Number(s), next: s.len() as int }));
    assert(spec_tokenize_from(s, s.len() as int) == Ok::<_, TokenizeErrorV>(
        Seq::<TokenV>::empty(),
    ));
    assert(seq![TokenV::Number(s)] + Seq::<TokenV>::empty() =~= seq![TokenV::Number(s)]);
}

/// Digit text, a dot, then digit text scans to a number token, a dot
/// token and a second number token; with nothing after the dot, to a
/// number token and a dot token.
pub proof fn lemma_tokenize_decimal_point(w: Seq<char>, f: Seq<char>)
    requires
        w.len() > 0,
        forall|j: int| 0 <= j < w.len() ==> is_digit(#[trigger] w[j]),
        forall|j: int| 0 <= j < f.len() ==> is_digit(#[trigger] f[j]),
    ensures
        f.len() == 0 ==> spec_tokenize(w + seq!['.'] + f) == Ok::<_, TokenizeErrorV>(
            seq![TokenV::Number(w), TokenV::Dot],
        ),
        f.len() > 0 ==> spec_tokenize(w + seq!['.'] + f) == Ok::<_, TokenizeErrorV>(
            seq![TokenV::Number(w), TokenV::Dot, TokenV::Number(f)],
        ),
{
    let s = w + seq!['.'] + f;
    let d = w.len() as int;
    assert(forall|j: int| 0 <= j < d ==> s[j] == w[j]);
    assert(s[d] == '.');
    assert(forall|j: int| d + 1 <= j < s.len() ==> s[j] == f[j - d - 1]);
    lemma_run_end_unique(s, 0, d, CharClass::Digit);
    assert(s.subrange(0, d) =~= w);
    assert(scan_step(s, 0) == (Scan::Tok { t: TokenV::Number(w), next: d }));
    assert(scan_step(s, d) == (Scan::Tok { t: TokenV::Dot, next: d + 1 }));
    if f.len() == 0 {
        assert(d + 1 == s.len());
        assert(spec_tokenize_from(s, d + 1) == Ok::<_, TokenizeErrorV>(Seq::<TokenV>::empty()));
        assert(spec_tokenize_from(s, d) == Ok::<_, TokenizeErrorV>(
            seq![TokenV::Dot] + Seq::<TokenV>::empty(),
        ));
        assert(spec_tokenize_from(s, 0) == Ok::<_, TokenizeErrorV>(
            seq![TokenV::Number(w)] + (seq![TokenV::Dot] + Seq::<TokenV>::empty()),
        ));
        assert(seq![TokenV::Number(w)] + (seq![TokenV::Dot] + Seq::<TokenV>::empty())
            =~= seq![TokenV::Number(w), TokenV::Dot]);
    } else {
        assert(is_digit(s[d + 1]));
        lemma_run_end_unique(s, d + 1, s.len() as int, CharClass::Digit);
        assert(s.subrange(d + 1, s.len() as int) =~= f);
        assert(scan_step(s, d + 1) == (Scan::Tok { t: TokenV::Number(f), next: s.len() as int }));
        assert(spec_tokenize_from(s, s.len() as int) == Ok::<_, TokenizeErrorV>(
            Seq::<TokenV>::empty(),
        ));
        assert(spec_tokenize_from(s, d + 1) == Ok::<_, TokenizeErrorV>(
            seq![TokenV::Number(f)] + Seq::<TokenV>::empty(),
        ));
        assert(spec_tokenize_from(s, d) == Ok::<_, TokenizeErrorV>(
            seq![TokenV::Dot] + (seq![TokenV::Number(f)] + Seq::<TokenV>::empty()),
        ));
        assert(spec_tokenize_from(s, 0) == Ok::<_, TokenizeErrorV>(
            seq![TokenV::Number(w)] + (seq![TokenV::Dot] + (seq![TokenV::Number(f)]
                + Seq::<TokenV>::empty())),
        ));
        assert(seq![TokenV::Number(w)] + (seq![TokenV::Dot] + (seq![TokenV::Number(f)]
            + Seq::<TokenV>::empty())) =~= seq![TokenV::Number(w), TokenV::Dot, TokenV::Number(
            f,
        )]);
    }
}

/// A class run within the suffix of a concatenation is the suffix's
/// own run, shifted by the prefix's length.
proof fn lemma_run_end_shift(s: Seq<char>, t: Seq<char>, i: int, k: CharClass)
    requires
        0 <= i <= t.len(),
    ensures
        run_end(s + t, s.len() + i, k) == s.len() + run_end(t, i, k),
{
    lemma_run_end(t, i, k);
    let re = run_end(t, i, k);
    assert forall|m: int| s.len() + i <= m < s.len() + re implies in_class(
        k,
        #[trigger] (s + t)[m],
    ) by {
        assert((s + t)[m] == t[m - s.len()]);
    }
    if re < t.len() {
        assert((s + t)[s.len() + re] == t[re]);
    }
    lemma_run_end_unique(s + t, s.len() + i, s.len() + re, k);
}

/// A scan step within the suffix of a concatenation takes the same
/// step as the suffix alone, with position shifted.
proof fn lemma_scan_step_shift(s: Seq<char>, t: Seq<char>, i: int)
    requires
        0 <= i < t.len(),
    ensures
        scan_step(t, i) matches Scan::Tok { t: tok, next } ==> scan_step(s + t, s.len() + i)
            == (Scan::Tok { t: tok, next: s.len() + next }),
{
    let big = s + t;
    let ii = s.len() + i;
    assert(big[ii] == t[i]);
    if i + 1 < t.len() {
        assert(big[ii + 1] == t[i + 1]);
    }
    lemma_run_end_shift(s, t, i, CharClass::Digit);
    lemma_run_end_shift(s, t, i, CharClass::Letter);
    lemma_run_end_shift(s, t, i + 1, CharClass::StringContent);
    lemma_run_end(t, i, CharClass::Digit);
    lemma_run_end(t, i, CharClass::Letter);
    lemma_run_end(t, i + 1, CharClass::StringContent);
    assert(big.subrange(ii, s.len() + run_end(t, i, CharClass::Digit)) =~= t.subrange(
        i,
        run_end(t, i, CharClass::Digit),
    ));
    assert(big.subrange(ii, s.len() + run_end(t, i, CharClass::Letter)) =~= t.subrange(
        i,
        run_end(t, i, CharClass::Letter),
    ));
    assert(big.subrange(ii + 1, s.len() + run_end(t, i + 1, CharClass::StringContent))
        =~= t.subrange(i + 1, run_end(t, i + 1, CharClass::StringContent)));
}

/// The tokens scanned from a suffix position of a concatenation are
/// the suffix's own tokens, when the suffix scans without error.
pub proof fn lemma_tokenize_shift(s: Seq<char>, t: Seq<char>, i: int)
    requires
        0 <= i <= t.len(),
        spec_tokenize_from(t, i) is Ok,
    ensures
        spec_tokenize_from(s + t, s.len() + i) == spec_tokenize_from(t, i),
    decreases t.len() - i,
{
    if i < t.len() {
        lemma_scan_step_shift(s, t, i);
        lemma_run_end(t, i, CharClass::Digit);
        lemma_run_end(t, i, CharClass::Letter);
        lemma_run_end(t, i + 1, CharClass::StringContent);
        match scan_step(t, i) {
            Scan::Tok { t: tok, next } => {
                lemma_tokenize_shift(s, t, next);
            },
            Scan::Fail { e } => {},
        }
    }
}

/// A class run in a text is unchanged by appending further text, as
/// long as the run already ends inside the text or the appended text
/// begins outside the class.
proof fn lemma_run_end_prefix(a: Seq<char>, u: Seq<char>, i: int, k: CharClass)
    requires
        0 <= i <= a.len(),
        u.len() > 0,
        run_end(a, i, k) < a.len() || !in_class(k, u[0]),
    ensures
        run_end(a + u, i, k) == run_end(a, i, k),
{
    lemma_run_end(a, i, k);
    let re = run_end(a, i, k);
    assert forall|m: int| i <= m < re implies in_class(k, #[trigger] (a + u)[m]) by {
        assert((a + u)[m] == a[m]);
    }
    if re < a.len() {
        assert((a + u)[re] == a[re]);
    } else {
        assert((a + u)[re] == u[0]);
    }
    lemma_run_end_unique(a + u, i, re, k);
}

/// The scan of a text followed by further text that begins with a
/// space is the text's own tokens followed by the scan of the rest:
/// the space stops every maximal run at the boundary.
pub proof fn lemma_tokenize_prefix(a: Seq<char>, u: Seq<char>, i: int)
    requires
        0 <= i <= a.len(),
        u.len() > 0,
        u[0] == ' ',
        spec_tokenize_from(a, i) is Ok,
        spec_tokenize_from(a + u, a.len() as int) is Ok,
    ensures
        spec_tokenize_from(a + u, i) == Ok::<_, TokenizeErrorV>(
            spec_tokenize_from(a, i)->Ok_0 + spec_tokenize_from(a + u, a.len() as int)->Ok_0,
        ),
    decreases a.len() - i,
{
    let big = a + u;
    let suffix = spec_tokenize_from(big, a.len() as int)->Ok_0;
    if i < a.len() {
        lemma_run_end(a, i, CharClass::Digit);
        lemma_run_end(a, i, CharClass::Letter);
        lemma_run_end(a, i + 1, CharClass::StringContent);
        lemma_run_end_prefix(a, u, i, CharClass::Digit);
        lemma_run_end_prefix(a, u, i, CharClass::Letter);
        assert(big[i] == a[i]);
        if i + 1 < a.len() {
            assert(big[i + 1] == a[i + 1]);
        } else {
            assert(big[i + 1] == u[0]);
        }
        match scan_step(a, i) {
            Scan::Tok { t: tok, next } => {
                if is_digit(a[i]) {
                    let re = run_end(a, i, CharClass::Digit);
                    assert(big.subrange(i, re) =~= a.subrange(i, re));
                } else if a[i] != '\'' && is_letter(a[i]) {
                    let re = run_end(a, i, CharClass::Letter);
                    assert(big.subrange(i, re) =~= a.subrange(i, re));
                } else if a[i] == '"' {
                    let j = run_end(a, i + 1, CharClass::StringContent);
                    lemma_run_end_prefix(a, u, i + 1, CharClass::StringContent);
                    assert(big.subrange(i + 1, j) =~= a.subrange(i + 1, j));
                }
                assert(scan_step(big, i) == (Scan::Tok { t: tok, next }));
                lemma_tokenize_prefix(a, u, next);
                match spec_tokenize_from(a, next) {
                    Ok(rest) => {
                        assert((seq![tok] + rest) + suffix =~= seq![tok] + (rest + suffix));
                    },
                    Err(_) => {},
                }
            },
            Scan::Fail { e } => {},
        }
    } else {
        assert(Seq::<TokenV>::empty() + suffix =~= suffix);
    }
}

/// Composition of scanned output: tokens already produced, followed
/// by whatever the rest of the scan yields.
spec fn tok_compose(
    prefix: Seq<TokenV>,
    rest: Result<Seq<TokenV>, TokenizeErrorV>,
) -> Result<Seq<TokenV>, TokenizeErrorV> {
    match rest {
        Ok(ts) => Ok(prefix + ts),
        Err(e) => Err(e),
    }
}

/// The scanner state: the text being scanned and a cursor into it,
/// counted in characters.
struct Tokenizer {
    input: String,
    pos: usize,
}

impl Tokenizer {
    spec fn wf(&self) -> bool {
        self.pos <= self.input@.len()
    }

    fn new(input: String) -> (r: Tokenizer)
        ensures
            r.input@ == input@,
            r.pos == 0,
    {
        Tokenizer { input, pos: 0 }
    }

    /// Consumes the maximal run of characters of class `k` at the
    /// cursor and returns it.
    fn consume_while(&mut self, k: CharClass) -> (r: String)
        requires
            old(self).wf(),
        ensures
            final(self).input@ == old(self).input@,
            final(self).wf(),
            final(self).pos == run_end(old(self).input@, old(self).pos as int, k),
            r@ == old(self).input@.subrange(old(self).pos as int, final(self).pos as int),
    {
        let ghost s = self.input@;
        let start: usize = self.pos;
        loop
            invariant
                self.input@ == s,
                start <= self.pos <= s.len(),
                forall|j: int| start <= j < self.pos ==> in_class(k, #[trigger] s[j]),
            ensures
                self.input@ == s,
                start <= self.pos <= s.len(),
                forall|j: int| start <= j < self.pos ==> in_class(k, #[trigger] s[j]),
                self.pos == s.len() || !in_class(k, s[self.pos as int]),
            decreases s.len() - self.pos,
        {
            let len = self.input.as_str().unicode_len();
            if self.pos < len {
                let c = self.input.as_str().get_char(self.pos);
                if char_matches(k, c) {
                    self.pos = self.pos + 1;
                } else {
                    break ;
                }
            } else {
                break ;
            }
        }
        proof {
            lemma_run_end_unique(s, start as int, self.pos as int, k);
        }
        let sub = self.input.as_str().substring_char(start, self.pos);
        sub.to_owned()
    }

    /// The number rule: the maximal run of ASCII digits at the cursor.
    fn read_number(&mut self) -> (r: Option<Token>)
        requires
            old(self).wf(),
        ensures
            final(self).input@ == old(self).input@,
            final(self).wf(),
            ({
                let s = old(self).input@;
                let i = old(self).pos as int;
                if i < s.len() && is_digit(s[i]) {
                    &&& r matches Some(t) && t@ == TokenV::Number(
                        s.subrange(i, run_end(s, i, CharClass::Digit)),
                    )
                    &&& final(self).pos == run_end(s, i, CharClass::Digit)
                } else {
                    r is None && final(self).pos == old(self).pos
                }
            }),
    {
        let len = self.input.as_str().unicode_len();
        if self.pos < len {
            let c = self.input.as_str().get_char(self.pos);
            if char_matches(CharClass::Digit, c) {
                let number = self.consume_while(CharClass::Digit);
                return Some(Token::Number(number));
            }
        }
        None
    }

    /// The quote rule: exactly one `'` character.
    fn read_quote(&mut self) -> (r: Option<Token>)
        requires
            old(self).wf(),
        ensures
            final(self).input@ == old(self).input@,
            final(self).wf(),
            ({
                let s = old(self).input@;
                let i = old(self).pos as int;
                if i < s.len() && s[i] == '\'' {
                    &&& r matches Some(t) && t@ == TokenV::Quote
                    &&& final(self).pos == i + 1
                } else {
                    r is None && final(self).pos == old(self).pos
                }
            }),
    {
        let len = self.input.as_str().unicode_len();
        if self.pos < len {
            let c = self.input.as_str().get_char(self.pos);
            if c == '\'' {
                self.pos = self.pos + 1;
                return Some(Token::Quote);
            }
        }
        None
    }

    /// The identifier rule: the maximal run of alphabetic characters
    /// at the cursor.
    fn read_identifier(&mut self) -> (r: Option<Token>)
        requires
            old(self).wf(),
        ensures
            final(self).input@ == old(self).input@,
            final(self).wf(),
            ({
                let s = old(self).input@;
                let i = old(self).pos as int;
                if i < s.len() && is_letter(s[i]) {
                    &&& r matches Some(t) && t@ == TokenV::Identifier(
                        s.subrange(i, run_end(s, i, CharClass::Letter)),
                    )
                    &&& final(self).pos == run_end(s, i, CharClass::Letter)
                } else {
                    r is None && final(self).pos == old(self).pos
                }
            }),
    {
        let len = self.input.as_str().unicode_len();
        if self.pos < len {
            let c = self.input.as_str().get_char(self.pos);
            if char_matches(CharClass::Letter, c) {
                let identifier = self.consume_while(CharClass::Letter);
                return Some(Token::Identifier(identifier));
            }
        }
        None
    }

    /// The whitespace rule: exactly one space character; each space
    /// becomes its own token.
    fn read_whitespace(&mut self) -> (r: Option<Token>)
        requires
            old(self).wf(),
        ensures
            final(self).input@ == old(self).input@,
            final(self).wf(),
            ({
                let s = old(self).input@;
                let i = old(self).pos as int;
                if i < s.len() && s[i] == ' ' {
                    &&& r matches Some(t) && t@ == TokenV::WhiteSpace
                    &&& final(self).pos == i + 1
                } else {
                    r is None && final(self).pos == old(self).pos
                }
            }),
    {
        let len = self.input.as_str().unicode_len();
        if self.pos < len {
            let c = self.input.as_str().get_char(self.pos);
            if c == ' ' {
                self.pos = self.pos + 1;
                return Some(Token::WhiteSpace);
            }
        }
        None
    }

    /// The dot rule: exactly one `.` character.
    fn read_dot(&mut self) -> (r: Option<Token>)
        requires
            old(self).wf(),
        ensures
            final(self).input@ == old(self).input@,
            final(self).wf(),
            ({
                let s = old(self).input@;
                let i = old(self).pos as int;
                if i < s.len() && s[i] == '.' {
                    &&& r matches Some(t) && t@ == TokenV::Dot
                    &&& final(self).pos == i + 1
                } else {
                    r is None && final(self).pos == old(self).pos
                }
            }),
    {
        let len = self.input.as_str().unicode_len();
        if self.pos < len {
            let c = self.input.as_str().get_char(self.pos);
            if c == '.' {
                self.pos = self.pos + 1;
                return Some(Token::Dot);
            }
        }
        None
    }

    /// The boolean rule: the literal prefix `#t` or `#f`.
    fn read_bool(&mut self) -> (r: Option<Token>)
        requires
            old(self).wf(),
        ensures
            final(self).input@ == old(self).input@,
            final(self).wf(),
            ({
                let s = old(self).input@;
                let i = old(self).pos as int;
                if i < s.len() && s[i] == '#' && i + 1 < s.len() && s[i + 1] == 't' {
                    &&& r matches Some(t) && t@ == TokenV::Bool(true)
                    &&& final(self).pos == i + 2
                } else if i < s.len() && s[i] == '#' && i + 1 < s.len() && s[i + 1] == 'f' {
                    &&& r matches Some(t) && t@ == TokenV::Bool(false)
                    &&& final(self).pos == i + 2
                } else {
                    r is None && final(self).pos == old(self).pos
                }
            }),
    {
        let len = self.input.as_str().unicode_len();
        if self.pos < len && self.pos + 1 < len {
            let c0 = self.input.as_str().get_char(self.pos);
            let c1 = self.input.as_str().get_char(self.pos + 1);
            if c0 == '#' && c1 == 't' {
                self.pos = self.pos + 2;
                return Some(Token::Bool(true));
            }
            if c0 == '#' && c1 == 'f' {
                self.pos = self.pos + 2;
                return Some(Token::Bool(false));
            }
        }
        None
    }

    /// The string rule: a `"` delimiter, the maximal run of
    /// non-delimiter characters, then the closing delimiter. A
    /// missing closing delimiter is an unterminated-string error, not
    /// an empty string token.
    fn read_string(&mut self) -> (r: Result<Option<Token>, TokenizeError>)
        requires
            old(self).wf(),
        ensures
            final(self).input@ == old(self).input@,
            final(self).wf(),
            ({
                let s = old(self).input@;
                let i = old(self).pos as int;
                if i < s.len() && s[i] == '"' {
                    let j = run_end(s, i + 1, CharClass::StringContent);
                    if j < s.len() {
                        &&& r matches Ok(o) && o matches Some(t) && t@ == TokenV::Str(
                            s.subrange(i + 1, j),
                        )
                        &&& final(self).pos == j + 1
                    } else {
                        r matches Err(e) && e@ == TokenizeErrorV::UnterminatedString { pos: i }
                    }
                } else {
                    r matches Ok(o) && o is None && final(self).pos == old(self).pos
                }
            }),
    {
        let len = self.input.as_str().unicode_len();
        if self.pos < len {
            let c = self.input.as_str().get_char(self.pos);
            if c == '"' {
                let start = self.pos;
                self.pos = self.pos + 1;
                let content = self.consume_while(CharClass::StringContent);
                if self.pos < len {
                    self.pos = self.pos + 1;
                    return Ok(Some(Token::String(content)));
                } else {
                    return Err(TokenizeError::UnterminatedString { pos: start });
                }
            }
        }
        Ok(None)
    }

    /// Scans the whole input: repeats the ordered recognizer rules
    /// until the cursor reaches the end (success) or no rule matches
    /// (failure, with no partial token sequence).
    fn tokenize(&mut self) -> (r: Result<Vec<Token>, TokenizeError>)
        requires
            old(self).wf(),
        ensures
            spec_tokenize_from(old(self).input@, old(self).pos as int) is Ok <==> r is Ok,
            r matches Ok(ts) ==> Ok::<_, TokenizeErrorV>(views_of_tokens(ts@)) == spec_tokenize_from(
                old(self).input@,
                old(self).pos as int,
            ),
            r matches Err(e) ==> Err::<Seq<TokenV>, _>(e@) == spec_tokenize_from(
                old(self).input@,
                old(self).pos as int,
            ),
    {
        let ghost s = self.input@;
        let ghost p0 = self.pos as int;
        let mut tokens: Vec<Token> = Vec::new();
        loop
            invariant
                s == old(self).input@,
                p0 == old(self).pos as int,
                self.input@ == s,
                self.wf(),
                0 <= p0,
                spec_tokenize_from(s, p0) == tok_compose(
                    views_of_tokens(tokens@),
                    spec_tokenize_from(s, self.pos as int),
                ),
            ensures
                self.pos == s.len(),
                spec_tokenize_from(s, p0) == tok_compose(
                    views_of_tokens(tokens@),
                    spec_tokenize_from(s, self.pos as int),
                ),
            decreases s.len() - self.pos,
        {
            let len = self.input.as_str().unicode_len();
            if self.pos >= len {
                break ;
            }
            let ghost pre = self.pos as int;
            proof {
                lemma_run_end(s, pre, CharClass::Digit);
                lemma_run_end(s, pre, CharClass::Letter);
                lemma_run_end(s, pre + 1, CharClass::StringContent);
            }
            let tok: Token;
            if let Some(t) = self.read_number() {
                tok = t;
            } else if let Some(t) = self.read_quote() {
                tok = t;
            } else if let Some(t) = self.read_identifier() {
                tok = t;
            } else if let Some(t) = self.read_whitespace() {
                tok = t;
            } else if let Some(t) = self.read_dot() {
                tok = t;
            } else if let Some(t) = self.read_bool() {
                tok = t;
            } else {
                match self.read_string() {
                    Ok(Some(t)) => {
                        tok = t;
                    },
                    Ok(None) => {
                        let ch = self.input.as_str().get_char(self.pos);
                        assert(scan_step(s, pre) == (Scan::Fail {
                            e: TokenizeErrorV::UnknownChar { ch: s[pre], pos: pre },
                        }));
                        return Err(TokenizeError::UnknownChar { ch, pos: self.pos });
                    },
                    Err(e) => {
                        assert(scan_step(s, pre) == (Scan::Fail { e: e@ }));
                        return Err(e);
                    },
                }
            }
            proof {
                assert(scan_step(s, pre) == (Scan::Tok { t: tok@, next: self.pos as int }));
                assert(views_of_tokens(tokens@.push(tok)) =~= views_of_tokens(tokens@).push(tok@));
                match spec_tokenize_from(s, self.pos as int) {
                    Ok(rest) => {
                        assert(spec_tokenize_from(s, pre) == Ok::<_, TokenizeErrorV>(
                            seq![tok@] + rest,
                        ));
                        assert(views_of_tokens(tokens@).push(tok@) + rest =~= views_of_tokens(
                            tokens@,
                        ) + (seq![tok@] + rest));
                    },
                    Err(e) => {
                        assert(spec_tokenize_from(s, pre) == Err::<Seq<TokenV>, _>(e));
                    },
                }
            }
            tokens.push(tok);
        }
        proof {
            assert(spec_tokenize_from(s, self.pos as int) == Ok::<_, TokenizeErrorV>(
                Seq::<TokenV>::empty(),
            ));
            assert(views_of_tokens(tokens@) + Seq::<TokenV>::empty() =~= views_of_tokens(tokens@));
        }
        Ok(tokens)
    }
}

/// Whether a character belongs to a class, decided executably.
fn char_matches(k: CharClass, c: char) -> (r: bool)
    ensures
        r == in_class(k, c),
{
    match k {
        CharClass::Digit => ('0' as u32) <= (c as u32) && (c as u32) <= ('9' as u32),
        CharClass::Letter => c.is_alphabetic(),
        CharClass::StringContent => c != '"',
    }
}

/// Scans a text into its token sequence, or fails with the first
/// scan error: an unknown character, or an unterminated string
/// literal. No partial token sequence is ever returned.
pub fn tokenize(input: String) -> (r: Result<Vec<Token>, TokenizeError>)
    ensures
        spec_tokenize(input@) is Ok <==> r is Ok,
        r matches Ok(ts) ==> Ok::<_, TokenizeErrorV>(views_of_tokens(ts@)) == spec_tokenize(
            input@,
        ),
        r matches Err(e) ==> Err::<Seq<TokenV>, _>(e@) == spec_tokenize(input@),
{
    let mut tokenizer = Tokenizer::new(input);
    tokenizer.tokenize()
}

/// The display text of one token: number, identifier and string
/// tokens show their payload, the fixed markers show a fixed word.
pub open spec fn token_text(t: TokenV) -> Seq<char> {
    match t {
        TokenV::Number(s) => s,
        TokenV::Quote => "quote"@,
        TokenV::Identifier(s) => s,
        TokenV::WhiteSpace => "space"@,
        TokenV::Dot => "dot"@,
        TokenV::Bool(b) => if b {
            "true"@
        } else {
            "false"@
        },
        TokenV::Str(s) => s,
    }
}

impl Token {
    /// Renders this token to its display text.
    pub fn to_text(&self) -> (r: String)
        ensures
            r@ == token_text(self@),
    {
        match self {
            Token::Number(s) => s.clone(),
            Token::Quote => String::from_str("quote"),
            Token::Identifier(s) => s.clone(),
            Token::WhiteSpace => String::from_str("space"),
            Token::Dot => String::from_str("dot"),
            Token::Bool(b) => {
                if *b {
                    String::from_str("true")
                } else {
                    String::from_str("false")
                }
            },
            Token::String(s) => s.clone(),
        }
    }

    /// A fresh token structurally equal to this one.
    pub fn duplicate(&self) -> (r: Token)
        ensures
            r@ == self@,
    {
        match self {
            Token::Number(s) => Token::Number(s.clone()),
            Token::Quote => Token::Quote,
            Token::Identifier(s) => Token::Identifier(s.clone()),
            Token::WhiteSpace => Token::WhiteSpace,
            Token::Dot => Token::Dot,
            Token::Bool(b) => Token::Bool(*b),
            Token::String(s) => Token::String(s.clone()),
        }
    }
}

impl PartialEq for Token {
    /// Structural, variant-sensitive equality.
    fn eq(&self, other: &Token) -> (r: bool) {
        match (self, other) {
            (Token::Number(a), Token::Number(b)) => *a == *b,
            (Token::Quote, Token::Quote) => true,
            (Token::Identifier(a), Token::Identifier(b)) => *a == *b,
            (Token::WhiteSpace, Token::WhiteSpace) => true,
            (Token::Dot, Token::Dot) => true,
            (Token::Bool(a), Token::Bool(b)) => *a == *b,
            (Token::String(a), Token::String(b)) => *a == *b,
            _ => false,
        }
    }
}

impl vstd::std_specs::cmp::PartialEqSpecImpl for Token {
    open spec fn obeys_eq_spec() -> bool {
        true
    }

    open spec fn eq_spec(&self, other: &Token) -> bool {
        self@ == other@
    }
}

} // verus!
