//! The parser: consumes a token sequence by recursive descent and
//! builds an ordered sequence of literal expression values.
//!
//! `parse` composes the two stages: it scans a text into tokens and
//! then parses the tokens. Either stage fails atomically: no partial
//! expression sequence is ever returned.

use vstd::prelude::*;
use vstd::string::*;

use crate::expr::{decimal_digits, decimal_text, digit_char, render, views_of_exprs, Expr, ExprV};
use crate::tokenize::{
    is_digit, is_letter, lemma_tokenize_all_digits, lemma_tokenize_decimal_point,
    lemma_tokenize_prefix, lemma_tokenize_shift, lemma_tokenize_wf, scan_step, spec_tokenize,
    spec_tokenize_from, token_wf, tokenize, tokens_wf, views_of_tokens, Scan, Token, TokenV,
    TokenizeError, TokenizeErrorV,
};

verus! {

/// An error from a failed parse. The whole call fails: no partial
/// expression sequence is ever returned.
#[derive(Debug)]
pub enum ParseError {
    /// The scan of the raw text failed before parsing began.
    Tokenize(TokenizeError),
    /// The token sequence ended where an expression was expected.
    EndOfInput,
    /// A quote mark stood at the end of the token sequence.
    UnterminatedQuote,
    /// A quote mark was followed by something other than an
    /// identifier.
    NotAtom,
    /// A token that cannot begin an expression, named here.
    UnexpectedToken(Token),
    /// A number literal does not fit in a 64-bit signed integer.
    Overflow,
}

/// Mathematical model of a [`ParseError`].
pub enum ParseErrorV {
    Tokenize(TokenizeErrorV),
    EndOfInput,
    UnterminatedQuote,
    NotAtom,
    UnexpectedToken(TokenV),
    Overflow,
}

impl View for ParseError {
    type V = ParseErrorV;

    open spec fn view(&self) -> ParseErrorV {
        match self {
            ParseError::Tokenize(e) => ParseErrorV::Tokenize(e@),
            ParseError::EndOfInput => ParseErrorV::EndOfInput,
            ParseError::UnterminatedQuote => ParseErrorV::UnterminatedQuote,
            ParseError::NotAtom => ParseErrorV::NotAtom,
            ParseError::UnexpectedToken(t) => ParseErrorV::UnexpectedToken(t@),
            ParseError::Overflow => ParseErrorV::Overflow,
        }
    }
}

/// The value of one decimal digit character.
pub open spec fn digit_val(c: char) -> int {
    (c as u32) as int - ('0' as u32) as int
}

/// The value of digit text folded by positional accumulation, most
/// significant digit first.
pub open spec fn digits_val(s: Seq<char>) -> int
    decreases s.len(),
{
    if s.len() == 0 {
        0
    } else {
        digits_val(s.drop_last()) * 10 + digit_val(s.last())
    }
}

/// Digit text folds to a non-negative value.
proof fn lemma_digits_val_nonneg(s: Seq<char>)
    requires
        forall|j: int| 0 <= j < s.len() ==> is_digit(#[trigger] s[j]),
    ensures
        0 <= digits_val(s),
    decreases s.len(),
{
    if s.len() > 0 {
        lemma_digits_val_nonneg(s.drop_last());
    }
}

/// Extending digit text by one digit multiplies its value by ten and
/// adds the digit.
proof fn lemma_digits_val_step(s: Seq<char>, i: int)
    requires
        0 <= i < s.len(),
    ensures
        digits_val(s.subrange(0, i + 1)) == digits_val(s.subrange(0, i)) * 10 + digit_val(s[i]),
{
    assert(s.subrange(0, i + 1).drop_last() =~= s.subrange(0, i));
    assert(s.subrange(0, i + 1).last() == s[i]);
}

/// The value of digit text is at least the value of any of its
/// prefixes.
proof fn lemma_digits_val_prefix(s: Seq<char>, i: int)
    requires
        forall|j: int| 0 <= j < s.len() ==> is_digit(#[trigger] s[j]),
        0 <= i <= s.len(),
    ensures
        digits_val(s.subrange(0, i)) <= digits_val(s),
    decreases s.len() - i,
{
    if i < s.len() {
        lemma_digits_val_step(s, i);
        assert(forall|j: int|
            0 <= j < s.subrange(0, i).len() ==> is_digit(#[trigger] s.subrange(0, i)[j]));
        lemma_digits_val_nonneg(s.subrange(0, i));
        lemma_digits_val_prefix(s, i + 1);
    } else {
        assert(s.subrange(0, i) =~= s);
    }
}

/// One expression parsed at cursor `i`: the literal value together
/// with the cursor position just past it, or an error.
///
/// Whitespace produces no expression: the cursor advances past it and
/// the parse retries at the next token.
pub open spec fn spec_parse_expr(t: Seq<TokenV>, i: int) -> Result<(ExprV, int), ParseErrorV>
    decreases t.len() - i,
    when 0 <= i
{
    if i >= t.len() {
        Err(ParseErrorV::EndOfInput)
    } else {
        match t[i] {
            TokenV::WhiteSpace => spec_parse_expr(t, i + 1),
            TokenV::Number(text) => {
                let v = digits_val(text);
                if v > i64::MAX as int {
                    Err(ParseErrorV::Overflow)
                } else if i + 1 < t.len() && t[i + 1] is Dot {
                    if i + 2 < t.len() && t[i + 2] is Number {
                        Ok((ExprV::Float(v, t[i + 2]->Number_0), i + 3))
                    } else {
                        Ok((ExprV::Float(v, Seq::empty()), i + 2))
                    }
                } else {
                    Ok((ExprV::Integer(v), i + 1))
                }
            },
            TokenV::Quote => {
                if i + 1 >= t.len() {
                    Err(ParseErrorV::UnterminatedQuote)
                } else if t[i + 1] is Identifier {
                    Ok((ExprV::Atom(t[i + 1]->Identifier_0), i + 2))
                } else {
                    Err(ParseErrorV::NotAtom)
                }
            },
            other => Err(ParseErrorV::UnexpectedToken(other)),
        }
    }
}

/// A successfully parsed expression moves the cursor forward, and no
/// further than the end of the token sequence.
pub proof fn lemma_parse_expr_bounds(t: Seq<TokenV>, i: int)
    requires
        0 <= i,
    ensures
        spec_parse_expr(t, i) matches Ok(p) ==> i < p.1 <= t.len(),
    decreases t.len() - i,
{
    if i < t.len() && t[i] is WhiteSpace {
        lemma_parse_expr_bounds(t, i + 1);
    }
}

/// The expression sequence parsed from cursor `i` to the end of the
/// token sequence, or the first error met on the way.
pub open spec fn spec_parse_from(t: Seq<TokenV>, i: int) -> Result<Seq<ExprV>, ParseErrorV>
    decreases t.len() - i,
    when 0 <= i
{
    if i >= t.len() {
        Ok(Seq::empty())
    } else {
        proof {
            lemma_parse_expr_bounds(t, i);
        }
        match spec_parse_expr(t, i) {
            Ok(p) => match spec_parse_from(t, p.1) {
                Ok(rest) => Ok(seq![p.0] + rest),
                Err(e) => Err(e),
            },
            Err(e) => Err(e),
        }
    }
}

/// The expression sequence of a whole text: the text is scanned into
/// tokens, and the tokens are parsed from the start.
pub open spec fn spec_parse_text(s: Seq<char>) -> Result<Seq<ExprV>, ParseErrorV> {
    match spec_tokenize(s) {
        Ok(ts) => spec_parse_from(ts, 0),
        Err(te) => Err(ParseErrorV::Tokenize(te)),
    }
}

/// Composition of parsed output: expressions already produced,
/// followed by whatever the rest of the parse yields.
spec fn expr_compose(
    prefix: Seq<ExprV>,
    rest: Result<Seq<ExprV>, ParseErrorV>,
) -> Result<Seq<ExprV>, ParseErrorV> {
    match rest {
        Ok(es) => Ok(prefix + es),
        Err(e) => Err(e),
    }
}

/// Folds digit text into a 64-bit signed integer by positional
/// accumulation, most significant digit first, or reports that the
/// value does not fit.
fn fold_digits(text: &String) -> (r: Option<i64>)
    requires
        forall|j: int| 0 <= j < text@.len() ==> is_digit(#[trigger] text@[j]),
    ensures
        match r {
            Some(v) => digits_val(text@) <= i64::MAX as int && v as int == digits_val(text@),
            None => digits_val(text@) > i64::MAX as int,
        },
{
    let len = text.as_str().unicode_len();
    let mut acc: i64 = 0;
    let mut i: usize = 0;
    while i < len
        invariant
            i <= len,
            len == text@.len(),
            forall|j: int| 0 <= j < text@.len() ==> is_digit(#[trigger] text@[j]),
            0 <= acc,
            acc as int == digits_val(text@.subrange(0, i as int)),
        decreases len - i,
    {
        let c = text.as_str().get_char(i);
        let d: u32 = (c as u32) - 48;
        let di: i64 = d as i64;
        if acc > (i64::MAX - di) / 10 {
            proof {
                lemma_digits_val_step(text@, i as int);
                lemma_digits_val_prefix(text@, i as int + 1);
            }
            return None;
        }
        acc = acc * 10 + di;
        proof {
            lemma_digits_val_step(text@, i as int);
        }
        i = i + 1;
    }
    proof {
        assert(text@.subrange(0, len as int) =~= text@);
    }
    Some(acc)
}

/// The parser state: the token sequence being consumed and a cursor
/// into it.
struct Parser {
    input: Vec<Token>,
    pos: usize,
}

impl Parser {
    spec fn wf(&self) -> bool {
        self.pos <= self.input@.len()
    }

    fn new(input: Vec<Token>) -> (r: Parser)
        ensures
            r.input@ == input@,
            r.pos == 0,
    {
        Parser { input, pos: 0 }
    }

    /// Whether the cursor has reached the end of the token sequence.
    fn eof(&self) -> (r: bool)
        ensures
            r == (self.input@.len() <= self.pos),
    {
        self.input.len() <= self.pos
    }

    /// Parses one expression at the cursor. Whitespace tokens are
    /// skipped in an explicit loop; the first non-whitespace token
    /// decides the expression.
    fn parse_expression(&mut self) -> (r: Result<Expr, ParseError>)
        requires
            old(self).wf(),
            tokens_wf(views_of_tokens(old(self).input@)),
        ensures
            final(self).input@ == old(self).input@,
            final(self).wf(),
            match spec_parse_expr(views_of_tokens(old(self).input@), old(self).pos as int) {
                Ok(p) => r matches Ok(e) && e@ == p.0 && final(self).pos == p.1,
                Err(pe) => r matches Err(x) && x@ == pe,
            },
    {
        let ghost tv = views_of_tokens(self.input@);
        loop
            invariant
                tv == views_of_tokens(old(self).input@),
                self.input@ == old(self).input@,
                self.wf(),
                tokens_wf(tv),
                old(self).pos <= self.pos,
                spec_parse_expr(tv, old(self).pos as int) == spec_parse_expr(tv, self.pos as int),
            decreases self.input@.len() - self.pos,
        {
            if self.pos >= self.input.len() {
                return Err(ParseError::EndOfInput);
            }
            let ghost pre = self.pos as int;
            proof {
                assert(tv[pre] == self.input@[pre]@);
            }
            match &self.input[self.pos] {
                Token::WhiteSpace => {
                    self.pos = self.pos + 1;
                },
                Token::Number(text) => {
                    let text = text.clone();
                    self.pos = self.pos + 1;
                    proof {
                        assert(token_wf(tv[pre]));
                    }
                    let folded = fold_digits(&text);
                    match folded {
                        None => {
                            return Err(ParseError::Overflow);
                        },
                        Some(n) => {
                            if self.pos < self.input.len() {
                                let dotted = matches!(&self.input[self.pos], Token::Dot);
                                proof {
                                    assert(tv[pre + 1] == self.input@[pre + 1]@);
                                }
                                if dotted {
                                    self.pos = self.pos + 1;
                                    if self.pos < self.input.len() {
                                        proof {
                                            assert(tv[pre + 2] == self.input@[pre + 2]@);
                                        }
                                        match &self.input[self.pos] {
                                            Token::Number(frac) => {
                                                let frac = frac.clone();
                                                self.pos = self.pos + 1;
                                                return Ok(Expr::Float(n, frac));
                                            },
                                            _ => {
                                                return Ok(Expr::Float(n, String::new()));
                                            },
                                        }
                                    } else {
                                        return Ok(Expr::Float(n, String::new()));
                                    }
                                }
                            }
                            return Ok(Expr::Integer(n));
                        },
                    }
                },
                Token::Quote => {
                    self.pos = self.pos + 1;
                    if self.pos >= self.input.len() {
                        return Err(ParseError::UnterminatedQuote);
                    }
                    proof {
                        assert(tv[pre + 1] == self.input@[pre + 1]@);
                    }
                    match &self.input[self.pos] {
                        Token::Identifier(identifier) => {
                            let atom = Expr::Atom(identifier.clone());
                            self.pos = self.pos + 1;
                            return Ok(atom);
                        },
                        _ => {
                            return Err(ParseError::NotAtom);
                        },
                    }
                },
                other => {
                    return Err(ParseError::UnexpectedToken(other.duplicate()));
                },
            }
        }
    }

    /// Parses expressions until the cursor reaches the end of the
    /// token sequence. A failure from any single expression aborts
    /// the whole call with that error.
    fn parse(&mut self) -> (r: Result<Vec<Expr>, ParseError>)
        requires
            old(self).wf(),
            tokens_wf(views_of_tokens(old(self).input@)),
        ensures
            match spec_parse_from(views_of_tokens(old(self).input@), old(self).pos as int) {
                Ok(es) => r matches Ok(v) && views_of_exprs(v@) == es,
                Err(pe) => r matches Err(x) && x@ == pe,
            },
    {
        let ghost tv = views_of_tokens(self.input@);
        let ghost p0 = self.pos as int;
        let mut expressions: Vec<Expr> = Vec::new();
        loop
            invariant
                tv == views_of_tokens(old(self).input@),
                p0 == old(self).pos as int,
                0 <= p0,
                self.input@ == old(self).input@,
                self.wf(),
                tokens_wf(tv),
                spec_parse_from(tv, p0) == expr_compose(
                    views_of_exprs(expressions@),
                    spec_parse_from(tv, self.pos as int),
                ),
            ensures
                self.input@.len() <= self.pos,
                spec_parse_from(tv, p0) == expr_compose(
                    views_of_exprs(expressions@),
                    spec_parse_from(tv, self.pos as int),
                ),
            decreases tv.len() - self.pos,
        {
            if self.eof() {
                break ;
            }
            let ghost pre = self.pos as int;
            proof {
                lemma_parse_expr_bounds(tv, pre);
            }
            match self.parse_expression() {
                Ok(e) => {
                    proof {
                        assert(views_of_exprs(expressions@.push(e)) =~= views_of_exprs(
                            expressions@,
                        ).push(e@));
                        match spec_parse_from(tv, self.pos as int) {
                            Ok(rest) => {
                                assert(spec_parse_from(tv, pre) == Ok::<_, ParseErrorV>(
                                    seq![e@] + rest,
                                ));
                                assert(views_of_exprs(expressions@).push(e@) + rest
                                    =~= views_of_exprs(expressions@) + (seq![e@] + rest));
                            },
                            Err(x) => {
                                assert(spec_parse_from(tv, pre) == Err::<Seq<ExprV>, _>(x));
                            },
                        }
                    }
                    expressions.push(e);
                },
                Err(error) => {
                    proof {
                        assert(spec_parse_from(tv, pre) == Err::<Seq<ExprV>, _>(error@));
                    }
                    return Err(error);
                },
            }
        }
        proof {
            assert(spec_parse_from(tv, self.pos as int) == Ok::<_, ParseErrorV>(
                Seq::<ExprV>::empty(),
            ));
            assert(views_of_exprs(expressions@) + Seq::<ExprV>::empty() =~= views_of_exprs(
                expressions@,
            ));
        }
        Ok(expressions)
    }
}

/// Parses a line of raw text into its expression sequence: the text
/// is scanned into tokens, and the tokens are parsed by recursive
/// descent. Either stage fails atomically with its error.
pub fn parse(src: String) -> (r: Result<Vec<Expr>, ParseError>)
    ensures
        match spec_parse_text(src@) {
            Ok(es) => r matches Ok(v) && views_of_exprs(v@) == es,
            Err(pe) => r matches Err(x) && x@ == pe,
        },
{
    let ghost sv = src@;
    match tokenize(src) {
        Ok(tokens) => {
            proof {
                lemma_tokenize_wf(sv);
            }
            let mut parser = Parser::new(tokens);
            parser.parse()
        },
        Err(e) => Err(ParseError::Tokenize(e)),
    }
}

/// A whitespace token that stands before further tokens is skipped:
/// it contributes no expression to the parsed output.
pub proof fn lemma_whitespace_is_skipped(t: Seq<TokenV>, i: int)
    requires
        0 <= i,
        i + 1 < t.len(),
        t[i] is WhiteSpace,
    ensures
        spec_parse_from(t, i) == spec_parse_from(t, i + 1),
{
    assert(spec_parse_expr(t, i) == spec_parse_expr(t, i + 1));
}

/// The canonical decimal text of a non-negative integer holds only
/// digits, is never empty, and carries no leading zero except for
/// the single digit `0` itself.
pub proof fn lemma_decimal_digits_wf(n: nat)
    ensures
        decimal_digits(n).len() >= 1,
        forall|j: int| 0 <= j < decimal_digits(n).len() ==> is_digit(#[trigger] decimal_digits(n)[j]),
        n > 0 ==> decimal_digits(n)[0] != '0',
    decreases n,
{
    if n < 10 {
        assert(is_digit(digit_char(n as int)));
    } else {
        lemma_decimal_digits_wf(n / 10);
        let prefix = decimal_digits(n / 10);
        let whole = decimal_digits(n);
        assert(whole == prefix + seq![digit_char((n % 10) as int)]);
        assert(whole[0] == prefix[0]);
        assert forall|j: int| 0 <= j < whole.len() implies is_digit(#[trigger] whole[j]) by {
            if j < prefix.len() {
                assert(whole[j] == prefix[j]);
            } else {
                assert(whole[j] == digit_char((n % 10) as int));
            }
        }
    }
}

/// A digit character folds back to its value.
proof fn lemma_digit_char_val(d: int)
    requires
        0 <= d <= 9,
    ensures
        digit_val(digit_char(d)) == d,
{
}

/// Folding the canonical decimal text of a non-negative integer
/// gives the integer back.
proof fn lemma_digits_val_decimal(n: nat)
    ensures
        digits_val(decimal_digits(n)) == n,
    decreases n,
{
    if n < 10 {
        let s = decimal_digits(n);
        assert(s.drop_last() =~= Seq::<char>::empty());
        assert(s.last() == digit_char(n as int));
        assert(digits_val(Seq::<char>::empty()) == 0);
        lemma_digit_char_val(n as int);
    } else {
        lemma_digit_char_val((n % 10) as int);
        lemma_digits_val_decimal(n / 10);
        let s = decimal_digits(n);
        assert(s.drop_last() =~= decimal_digits(n / 10));
        assert(s.last() == digit_char((n % 10) as int));
    }
}

/// What the parser guarantees of every literal it produces: integer
/// and float parts fit in 64 bits, fractional digit text is digit
/// text, atom text is non-empty alphabetic text.
pub open spec fn parsed_expr_wf(e: ExprV) -> bool {
    match e {
        ExprV::Integer(n) => 0 <= n <= i64::MAX as int,
        ExprV::Float(w, f) => 0 <= w <= i64::MAX as int && (forall|j: int|
            0 <= j < f.len() ==> is_digit(#[trigger] f[j])),
        ExprV::Atom(a) => a.len() > 0 && (forall|j: int|
            0 <= j < a.len() ==> is_letter(#[trigger] a[j])),
        ExprV::Bool(_) => true,
        ExprV::Str(_) => true,
    }
}

proof fn lemma_parse_expr_wf(t: Seq<TokenV>, i: int)
    requires
        0 <= i,
        tokens_wf(t),
    ensures
        spec_parse_expr(t, i) matches Ok(p) ==> parsed_expr_wf(p.0),
    decreases t.len() - i,
{
    if i < t.len() {
        match t[i] {
            TokenV::WhiteSpace => {
                lemma_parse_expr_wf(t, i + 1);
            },
            TokenV::Number(text) => {
                assert(token_wf(t[i]));
                lemma_digits_val_nonneg(text);
                if i + 2 < t.len() && t[i + 2] is Number {
                    assert(token_wf(t[i + 2]));
                }
            },
            TokenV::Quote => {
                if i + 1 < t.len() {
                    assert(token_wf(t[i + 1]));
                }
            },
            _ => {},
        }
    }
}

proof fn lemma_parse_from_wf(t: Seq<TokenV>, i: int)
    requires
        0 <= i,
        tokens_wf(t),
    ensures
        spec_parse_from(t, i) matches Ok(es) ==> forall|k: int|
            0 <= k < es.len() ==> parsed_expr_wf(#[trigger] es[k]),
    decreases t.len() - i,
{
    if i < t.len() {
        lemma_parse_expr_bounds(t, i);
        lemma_parse_expr_wf(t, i);
        match spec_parse_expr(t, i) {
            Ok(p) => {
                lemma_parse_from_wf(t, p.1);
                match spec_parse_from(t, p.1) {
                    Ok(rest) => {
                        assert forall|k: int|
                            0 <= k < (seq![p.0] + rest).len() implies parsed_expr_wf(
                            #[trigger] (seq![p.0] + rest)[k],
                        ) by {
                            if k > 0 {
                                assert((seq![p.0] + rest)[k] == rest[k - 1]);
                            }
                        }
                    },
                    Err(_) => {},
                }
            },
            Err(_) => {},
        }
    }
}

/// Every literal in a successfully parsed text satisfies
/// [`parsed_expr_wf`].
pub proof fn lemma_parse_text_wf(s: Seq<char>)
    ensures
        spec_parse_text(s) matches Ok(es) ==> forall|k: int|
            0 <= k < es.len() ==> parsed_expr_wf(#[trigger] es[k]),
{
    lemma_tokenize_wf(s);
    match spec_tokenize(s) {
        Ok(ts) => {
            lemma_parse_from_wf(ts, 0);
        },
        Err(_) => {},
    }
}

/// Parsing the canonical decimal text of a value within the 64-bit
/// signed range yields exactly the one literal holding that value.
proof fn lemma_parse_canonical_digits(v: int)
    requires
        0 <= v <= i64::MAX as int,
    ensures
        spec_parse_text(decimal_digits(v as nat)) == Ok::<Seq<ExprV>, ParseErrorV>(
            seq![ExprV::Integer(v)],
        ),
{
    let s = decimal_digits(v as nat);
    lemma_decimal_digits_wf(v as nat);
    lemma_digits_val_decimal(v as nat);
    lemma_tokenize_all_digits(s);
    let t = seq![TokenV::Number(s)];
    assert(spec_parse_expr(t, 0) == Ok::<(ExprV, int), ParseErrorV>((ExprV::Integer(v), 1)));
    assert(spec_parse_from(t, 1) == Ok::<Seq<ExprV>, ParseErrorV>(Seq::<ExprV>::empty()));
    assert(seq![ExprV::Integer(v)] + Seq::<ExprV>::empty() =~= seq![ExprV::Integer(v)]);
}

/// For every non-negative 64-bit integer `n`, parsing the canonical
/// decimal text of `n` yields exactly the one literal `Integer(n)`.
pub proof fn lemma_parse_canonical_integer(n: i64)
    requires
        0 <= n,
    ensures
        spec_parse_text(decimal_text(n as int)) == Ok::<Seq<ExprV>, ParseErrorV>(
            seq![ExprV::Integer(n as int)],
        ),
{
    lemma_parse_canonical_digits(n as int);
}

/// Round trip for integers: every integer literal in a successfully
/// parsed text renders to canonical text that parses back to exactly
/// that literal.
pub proof fn lemma_round_trip_integer(s: Seq<char>, k: int)
    requires
        spec_parse_text(s) matches Ok(es) && 0 <= k < es.len() && es[k] is Integer,
    ensures
        spec_parse_text(render(spec_parse_text(s)->Ok_0[k])) == Ok::<Seq<ExprV>, ParseErrorV>(
            seq![spec_parse_text(s)->Ok_0[k]],
        ),
{
    lemma_parse_text_wf(s);
    let e = spec_parse_text(s)->Ok_0[k];
    assert(parsed_expr_wf(e));
    lemma_parse_canonical_digits(e->Integer_0);
}

/// An expression parsed within the suffix of a concatenated token
/// sequence is the suffix's own expression, with the cursor shifted.
proof fn lemma_parse_expr_shift(s: Seq<TokenV>, t: Seq<TokenV>, i: int)
    requires
        0 <= i <= t.len(),
    ensures
        spec_parse_expr(s + t, s.len() + i) == (match spec_parse_expr(t, i) {
            Ok(p) => Ok::<(ExprV, int), ParseErrorV>((p.0, s.len() + p.1)),
            Err(e) => Err(e),
        }),
    decreases t.len() - i,
{
    let big = s + t;
    if i < t.len() {
        assert(big[s.len() + i] == t[i]);
        if i + 1 < t.len() {
            assert(big[s.len() + i + 1] == t[i + 1]);
        }
        if i + 2 < t.len() {
            assert(big[s.len() + i + 2] == t[i + 2]);
        }
        if t[i] is WhiteSpace {
            lemma_parse_expr_shift(s, t, i + 1);
        }
    }
}

/// The expressions parsed from a suffix position of a concatenated
/// token sequence are the suffix's own expressions.
proof fn lemma_parse_from_shift(s: Seq<TokenV>, t: Seq<TokenV>, i: int)
    requires
        0 <= i <= t.len(),
    ensures
        spec_parse_from(s + t, s.len() + i) == spec_parse_from(t, i),
    decreases t.len() - i,
{
    if i < t.len() {
        lemma_parse_expr_shift(s, t, i);
        lemma_parse_expr_bounds(t, i);
        lemma_parse_expr_bounds(s + t, s.len() + i);
        match spec_parse_expr(t, i) {
            Ok(p) => {
                lemma_parse_from_shift(s, t, p.1);
            },
            Err(_) => {},
        }
    }
}

/// An expression parsed inside a token sequence is unchanged by
/// appending further tokens that begin with whitespace: the
/// lookahead past a number or a dot sees whitespace either way.
proof fn lemma_parse_expr_prefix(ta: Seq<TokenV>, u: Seq<TokenV>, i: int)
    requires
        0 <= i <= ta.len(),
        u.len() > 0,
        u[0] is WhiteSpace,
        spec_parse_expr(ta, i) is Ok,
    ensures
        spec_parse_expr(ta + u, i) == spec_parse_expr(ta, i),
    decreases ta.len() - i,
{
    let big = ta + u;
    assert(big[i] == ta[i]);
    if i + 1 < ta.len() {
        assert(big[i + 1] == ta[i + 1]);
    } else if i + 1 == ta.len() {
        assert(big[i + 1] == u[0]);
    }
    if i + 2 < ta.len() {
        assert(big[i + 2] == ta[i + 2]);
    } else if i + 2 == ta.len() {
        assert(big[i + 2] == u[0]);
    }
    if ta[i] is WhiteSpace {
        lemma_parse_expr_prefix(ta, u, i + 1);
    }
}

/// The expressions parsed from a token sequence followed by
/// whitespace-led further tokens are the sequence's own expressions
/// followed by the expressions of the rest.
proof fn lemma_parse_from_prefix(ta: Seq<TokenV>, u: Seq<TokenV>, i: int)
    requires
        0 <= i <= ta.len(),
        u.len() > 0,
        u[0] is WhiteSpace,
        spec_parse_from(ta, i) is Ok,
        spec_parse_from(ta + u, ta.len() as int) is Ok,
    ensures
        spec_parse_from(ta + u, i) == Ok::<Seq<ExprV>, ParseErrorV>(
            spec_parse_from(ta, i)->Ok_0 + spec_parse_from(ta + u, ta.len() as int)->Ok_0,
        ),
    decreases ta.len() - i,
{
    let big = ta + u;
    let suffix = spec_parse_from(big, ta.len() as int)->Ok_0;
    if i < ta.len() {
        lemma_parse_expr_prefix(ta, u, i);
        lemma_parse_expr_bounds(ta, i);
        lemma_parse_expr_bounds(big, i);
        match spec_parse_expr(ta, i) {
            Ok(p) => {
                lemma_parse_from_prefix(ta, u, p.1);
                match spec_parse_from(ta, p.1) {
                    Ok(rest) => {
                        assert((seq![p.0] + rest) + suffix =~= seq![p.0] + (rest + suffix));
                    },
                    Err(_) => {},
                }
            },
            Err(_) => {},
        }
    } else {
        assert(Seq::<ExprV>::empty() + suffix =~= suffix);
    }
}

/// Concatenation: two parsable texts joined by a single space parse
/// to the concatenation of their expression sequences, as long as
/// the second text holds at least one token. The separating
/// whitespace token is skipped and contributes no expression to the
/// output.
pub proof fn lemma_parse_concat_with_space(a: Seq<char>, b: Seq<char>)
    requires
        spec_parse_text(a) is Ok,
        spec_parse_text(b) is Ok,
        spec_tokenize(b)->Ok_0.len() > 0,
    ensures
        spec_parse_text(a + seq![' '] + b) == Ok::<Seq<ExprV>, ParseErrorV>(
            spec_parse_text(a)->Ok_0 + spec_parse_text(b)->Ok_0,
        ),
{
    let big = a + seq![' '] + b;
    let ta = spec_tokenize(a)->Ok_0;
    let tb = spec_tokenize(b)->Ok_0;
    let u = seq![' '] + b;
    assert(big =~= a + u);
    assert(u[0] == ' ');
    // The scan after the boundary: one whitespace token, then the
    // tokens of `b`.
    assert(big[a.len() as int] == ' ');
    assert(scan_step(big, a.len() as int) == (Scan::Tok {
        t: TokenV::WhiteSpace,
        next: a.len() as int + 1,
    }));
    assert(big =~= (a + seq![' ']) + b);
    lemma_tokenize_shift(a + seq![' '], b, 0);
    assert(spec_tokenize_from(big, a.len() as int + 1) == spec_tokenize(b));
    assert(spec_tokenize_from(big, a.len() as int) == Ok::<_, TokenizeErrorV>(
        seq![TokenV::WhiteSpace] + tb,
    ));
    // The scan before the boundary: the tokens of `a`.
    lemma_tokenize_prefix(a, u, 0);
    let tbig = ta + (seq![TokenV::WhiteSpace] + tb);
    assert(spec_tokenize(big) == Ok::<_, TokenizeErrorV>(tbig));
    // The parse after the boundary: skip the whitespace token, then
    // the expressions of `b`.
    assert(tbig =~= (ta + seq![TokenV::WhiteSpace]) + tb);
    lemma_parse_from_shift(ta + seq![TokenV::WhiteSpace], tb, 0);
    assert(spec_parse_from(tbig, ta.len() as int + 1) == spec_parse_from(tb, 0));
    assert(tbig[ta.len() as int] is WhiteSpace);
    lemma_whitespace_is_skipped(tbig, ta.len() as int);
    assert(spec_parse_from(tbig, ta.len() as int) == spec_parse_from(tb, 0));
    // The parse before the boundary: the expressions of `a`.
    lemma_parse_from_prefix(ta, seq![TokenV::WhiteSpace] + tb, 0);
}

/// Round trip for floats: every float literal in a successfully
/// parsed text renders to text that parses back to exactly that
/// literal, since the fractional digit text is kept as written.
pub proof fn lemma_round_trip_float(s: Seq<char>, k: int)
    requires
        spec_parse_text(s) matches Ok(es) && 0 <= k < es.len() && es[k] is Float,
    ensures
        spec_parse_text(render(spec_parse_text(s)->Ok_0[k])) == Ok::<Seq<ExprV>, ParseErrorV>(
            seq![spec_parse_text(s)->Ok_0[k]],
        ),
{
    lemma_parse_text_wf(s);
    let e = spec_parse_text(s)->Ok_0[k];
    assert(parsed_expr_wf(e));
    let w = e->Float_0;
    let f = e->Float_1;
    lemma_decimal_digits_wf(w as nat);
    lemma_digits_val_decimal(w as nat);
    lemma_tokenize_decimal_point(decimal_digits(w as nat), f);
    assert(render(e) == decimal_digits(w as nat) + seq!['.'] + f);
    if f.len() == 0 {
        let t = seq![TokenV::Number(decimal_digits(w as nat)), TokenV::Dot];
        assert(spec_parse_expr(t, 0) == Ok::<(ExprV, int), ParseErrorV>((
            ExprV::Float(w, Seq::empty()),
            2,
        )));
        assert(f =~= Seq::<char>::empty());
        assert(ExprV::Float(w, Seq::empty()) == e);
        assert(spec_parse_from(t, 2) == Ok::<Seq<ExprV>, ParseErrorV>(Seq::<ExprV>::empty()));
        assert(seq![e] + Seq::<ExprV>::empty() =~= seq![e]);
    } else {
        let t = seq![TokenV::Number(decimal_digits(w as nat)), TokenV::Dot, TokenV::Number(f)];
        assert(spec_parse_expr(t, 0) == Ok::<(ExprV, int), ParseErrorV>((ExprV::Float(w, f), 3)));
        assert(spec_parse_from(t, 3) == Ok::<Seq<ExprV>, ParseErrorV>(Seq::<ExprV>::empty()));
        assert(seq![e] + Seq::<ExprV>::empty() =~= seq![e]);
    }
}

} // verus!
