//! Literal expression values and their canonical text rendering.

use vstd::prelude::*;
use vstd::string::*;

verus! {

/// Mathematical model of an [`Expr`].
///
/// A floating-point literal is modelled exactly by its truncated
/// integer part together with the fractional digit text, so that no
/// floating-point arithmetic enters the verified core.
pub enum ExprV {
    Atom(Seq<char>),
    Integer(int),
    Float(int, Seq<char>),
    Bool(bool),
    Str(Seq<char>),
}

/// A parsed literal value: a leaf of the abstract syntax tree.
///
/// `Float(whole, frac)` carries the truncated integer part and the
/// fractional digit text exactly as written, most significant digit
/// first; `Float(123, "456")` stands for the literal `123.456`.
#[derive(Debug)]
pub enum Expr {
    Atom(String),
    Integer(i64),
    Float(i64, String),
    Bool(bool),
    String(String),
}

impl View for Expr {
    type V = ExprV;

    open spec fn view(&self) -> ExprV {
        match self {
            Expr::Atom(s) => ExprV::Atom(s@),
            Expr::Integer(n) => ExprV::Integer(*n as int),
            Expr::Float(w, f) => ExprV::Float(*w as int, f@),
            Expr::Bool(b) => ExprV::Bool(*b),
            Expr::String(s) => ExprV::Str(s@),
        }
    }
}

/// The views of a sequence of expressions.
pub open spec fn views_of_exprs(es: Seq<Expr>) -> Seq<ExprV> {
    es.map_values(|e: Expr| e@)
}

/// Fraction digit text with its trailing zeros removed: the
/// canonical form under which two fractions denote the same decimal
/// value.
pub open spec fn strip_trailing_zeros(f: Seq<char>) -> Seq<char>
    decreases f.len(),
{
    if f.len() > 0 && f.last() == '0' {
        strip_trailing_zeros(f.drop_last())
    } else {
        f
    }
}

/// Equality of expressions: variant-sensitive, and numeric on
/// floats. Two floats are equal when they denote the same decimal
/// value: equal whole parts, and equal fraction digit texts once
/// trailing zeros are stripped, so `1.5` equals `1.50`.
///
/// Two distinct decimal values are never equated here, even where
/// both would round to the same 64-bit float.
pub open spec fn spec_expr_eq(a: ExprV, b: ExprV) -> bool {
    match (a, b) {
        (ExprV::Atom(l), ExprV::Atom(r)) => l == r,
        (ExprV::Integer(l), ExprV::Integer(r)) => l == r,
        (ExprV::Float(lw, lf), ExprV::Float(rw, rf)) => lw == rw && strip_trailing_zeros(lf)
            == strip_trailing_zeros(rf),
        (ExprV::Bool(l), ExprV::Bool(r)) => l == r,
        (ExprV::Str(l), ExprV::Str(r)) => l == r,
        _ => false,
    }
}

/// Stripping trailing zeros keeps exactly the prefix that ends at
/// the last non-zero digit.
proof fn lemma_strip_trailing_zeros_form(f: Seq<char>, e: int)
    requires
        0 <= e <= f.len(),
        forall|j: int| e <= j < f.len() ==> f[j] == '0',
        e == 0 || f[e - 1] != '0',
    ensures
        strip_trailing_zeros(f) == f.subrange(0, e),
    decreases f.len(),
{
    if f.len() > e {
        assert(f.last() == '0');
        lemma_strip_trailing_zeros_form(f.drop_last(), e);
        assert(f.drop_last().subrange(0, e) =~= f.subrange(0, e));
    } else {
        assert(f.subrange(0, e) =~= f);
    }
}

/// The number of fraction digits that remain once trailing zeros
/// are stripped.
fn fraction_end(f: &String) -> (r: usize)
    ensures
        r <= f@.len(),
        strip_trailing_zeros(f@) == f@.subrange(0, r as int),
{
    let len = f.as_str().unicode_len();
    let mut e: usize = len;
    while e > 0 && f.as_str().get_char(e - 1) == '0'
        invariant
            e <= len,
            len == f@.len(),
            forall|j: int| e <= j < f@.len() ==> f@[j] == '0',
        decreases e,
    {
        e = e - 1;
    }
    proof {
        lemma_strip_trailing_zeros_form(f@, e as int);
    }
    e
}

/// Whether two fraction digit texts denote the same decimal value:
/// equal once trailing zeros are stripped.
fn fraction_eq(a: &String, b: &String) -> (r: bool)
    ensures
        r == (strip_trailing_zeros(a@) == strip_trailing_zeros(b@)),
{
    let ea = fraction_end(a);
    let eb = fraction_end(b);
    let sa = a.as_str().substring_char(0, ea).to_owned();
    let sb = b.as_str().substring_char(0, eb).to_owned();
    sa == sb
}

/// The decimal digit character for a value below ten.
pub open spec fn digit_char(d: int) -> char {
    if d == 0 {
        '0'
    } else if d == 1 {
        '1'
    } else if d == 2 {
        '2'
    } else if d == 3 {
        '3'
    } else if d == 4 {
        '4'
    } else if d == 5 {
        '5'
    } else if d == 6 {
        '6'
    } else if d == 7 {
        '7'
    } else if d == 8 {
        '8'
    } else {
        '9'
    }
}

/// The canonical decimal text of a non-negative integer: no leading
/// zeros, except for the single digit `0` itself.
pub open spec fn decimal_digits(n: nat) -> Seq<char>
    decreases n,
{
    if n < 10 {
        seq![digit_char(n as int)]
    } else {
        decimal_digits(n / 10) + seq![digit_char((n % 10) as int)]
    }
}

/// The canonical decimal text of any integer, a minus sign in front of
/// a negative value.
pub open spec fn decimal_text(v: int) -> Seq<char> {
    if v < 0 {
        seq!['-'] + decimal_digits((-v) as nat)
    } else {
        decimal_digits(v as nat)
    }
}

/// The canonical text rendering of an expression: integers as decimal
/// digits, floats as integer part, a dot, then the fractional digits,
/// atoms and strings as their bare text, booleans as `true`/`false`.
pub open spec fn render(e: ExprV) -> Seq<char> {
    match e {
        ExprV::Atom(s) => s,
        ExprV::Integer(n) => decimal_text(n),
        ExprV::Float(w, f) => decimal_text(w) + seq!['.'] + f,
        ExprV::Bool(b) => if b {
            "true"@
        } else {
            "false"@
        },
        ExprV::Str(s) => s,
    }
}

/// The one-character string slice for a decimal digit value.
fn digit_str(d: u64) -> (r: &'static str)
    requires
        d < 10,
    ensures
        r@ == seq![digit_char(d as int)],
{
    let s: &'static str = match d {
        0 => "0",
        1 => "1",
        2 => "2",
        3 => "3",
        4 => "4",
        5 => "5",
        6 => "6",
        7 => "7",
        8 => "8",
        _ => "9",
    };
    proof {
        reveal_strlit("0");
        reveal_strlit("1");
        reveal_strlit("2");
        reveal_strlit("3");
        reveal_strlit("4");
        reveal_strlit("5");
        reveal_strlit("6");
        reveal_strlit("7");
        reveal_strlit("8");
        reveal_strlit("9");
        assert(s@ =~= seq![digit_char(d as int)]);
    }
    s
}

/// Appends the canonical decimal digits of `n` to `out`.
fn append_decimal(n: u64, out: &mut String)
    ensures
        final(out)@ == old(out)@ + decimal_digits(n as nat),
    decreases n,
{
    if n >= 10 {
        append_decimal(n / 10, out);
    }
    let d: &'static str = digit_str(n % 10);
    out.append(d);
    proof {
        assert(out@ =~= old(out)@ + decimal_digits(n as nat));
    }
}

/// The canonical decimal text of a 64-bit signed integer.
pub(crate) fn decimal_string(n: i64) -> (r: String)
    ensures
        r@ == decimal_text(n as int),
{
    let mut out = String::new();
    if n < 0 {
        out.append("-");
        let m: u64 = (-(n as i128)) as u64;
        append_decimal(m, &mut out);
        proof {
            reveal_strlit("-");
            assert(out@ =~= decimal_text(n as int));
        }
    } else {
        append_decimal(n as u64, &mut out);
        proof {
            assert(out@ =~= decimal_text(n as int));
        }
    }
    out
}

impl Expr {
    /// Renders this expression to its canonical text.
    pub fn to_text(&self) -> (r: String)
        ensures
            r@ == render(self@),
    {
        match self {
            Expr::Atom(s) => s.clone(),
            Expr::Integer(n) => decimal_string(*n),
            Expr::Float(w, f) => {
                let mut out = decimal_string(*w);
                out.append(".");
                out.append(f.as_str());
                proof {
                    reveal_strlit(".");
                    assert(out@ =~= render(self@));
                }
                out
            },
            Expr::Bool(b) => {
                if *b {
                    String::from_str("true")
                } else {
                    String::from_str("false")
                }
            },
            Expr::String(s) => s.clone(),
        }
    }

    /// A fresh expression structurally equal to this one.
    pub fn duplicate(&self) -> (r: Expr)
        ensures
            r@ == self@,
    {
        match self {
            Expr::Atom(s) => Expr::Atom(s.clone()),
            Expr::Integer(n) => Expr::Integer(*n),
            Expr::Float(w, f) => Expr::Float(*w, f.clone()),
            Expr::Bool(b) => Expr::Bool(*b),
            Expr::String(s) => Expr::String(s.clone()),
        }
    }
}

impl PartialEq for Expr {
    /// Variant-sensitive equality, per [`spec_expr_eq`]: two
    /// expressions of different variants are never equal, and floats
    /// compare by the decimal value they denote.
    fn eq(&self, other: &Expr) -> (r: bool) {
        match (self, other) {
            (Expr::Atom(a), Expr::Atom(b)) => *a == *b,
            (Expr::Integer(a), Expr::Integer(b)) => *a == *b,
            (Expr::Float(aw, af), Expr::Float(bw, bf)) => *aw == *bw && fraction_eq(af, bf),
            (Expr::Bool(a), Expr::Bool(b)) => *a == *b,
            (Expr::String(a), Expr::String(b)) => *a == *b,
            _ => false,
        }
    }
}

impl vstd::std_specs::cmp::PartialEqSpecImpl for Expr {
    open spec fn obeys_eq_spec() -> bool {
        true
    }

    open spec fn eq_spec(&self, other: &Expr) -> bool {
        spec_expr_eq(self@, other@)
    }
}

} // verus!
