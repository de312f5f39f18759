//! Syntax tree of a Weft program, with spans throughout for diagnostics.
//! Float literals keep their source spelling.
use vstd::prelude::*;
use crate::diag::Span;
use crate::text::{debug_str, debug_str_spec, i64_text, int_text, push_char, push_str, owned};

verus! {

#[derive(Debug)]
pub struct Program {
    pub items: Vec<Item>,
}

#[derive(Debug)]
pub enum Item {
    /// `type Name = ...`: alias, variant declaration, or nominal record
    TypeDef(TypeDef),
    /// `def name(params) -> R = expr` or `def name: T = expr`
    Def(Def),
    /// `test "name" = expr` / `test "name" (params) = expr`
    Test(Test),
}

#[derive(Debug)]
pub struct TypeDef {
    pub name: String,
    pub decl: TypeDecl,
    pub span: Span,
}

#[derive(Debug)]
pub enum TypeDecl {
    Alias(TypeExpr),
    Variants(Vec<VariantDef>),
    /// nominal record with an invariant
    Nominal { fields: Vec<(String, TypeExpr)>, invariant: Expr },
}

#[derive(Debug)]
pub struct VariantDef {
    pub name: String,
    pub payload: Vec<TypeExpr>,
    pub span: Span,
}

#[derive(Debug)]
pub struct Def {
    pub name: String,
    pub tparams: Vec<String>,
    /// None for constants (`def name: T = expr`)
    pub params: Option<Vec<Param>>,
    /// Return type for functions; declared type for constants
    pub ty: TypeExpr,
    pub body: Expr,
    pub span: Span,
}

#[derive(Debug)]
pub struct Param {
    pub name: String,
    pub ty: TypeExpr,
    /// `where` contract
    pub contract: Option<Expr>,
    pub span: Span,
}

#[derive(Debug)]
pub struct Test {
    pub name: String,
    pub params: Vec<Param>,
    pub body: Expr,
    pub span: Span,
}

#[derive(Debug)]
pub enum TypeExpr {
    /// `Int`, `List[T]`, `User`: name plus type arguments
    Name(String, Vec<TypeExpr>, Span),
    /// `{f: T, ...}` structural record
    Record(Vec<(String, TypeExpr)>, Span),
    /// `(A, B) -> C`
    Fn(Vec<TypeExpr>, Box<TypeExpr>, Span),
}

impl TypeExpr {
    pub fn span(&self) -> (r: Span)
        ensures
            r == type_expr_span(*self),
    {
        match self {
            TypeExpr::Name(_, _, s) => *s,
            TypeExpr::Record(_, s) => *s,
            TypeExpr::Fn(_, _, s) => *s,
        }
    }
}

pub open spec fn type_expr_span(t: TypeExpr) -> Span {
    match t {
        TypeExpr::Name(_, _, s) => s,
        TypeExpr::Record(_, s) => s,
        TypeExpr::Fn(_, _, s) => s,
    }
}

#[derive(Debug, Clone, Copy, PartialEq, Eq, Structural)]
pub enum BinOp {
    Add,
    Sub,
    Mul,
    Div,
    Rem,
    Concat,
    Eq,
    Ne,
    Lt,
    Le,
    Gt,
    Ge,
    And,
    Or,
}

#[derive(Debug)]
pub struct Expr {
    pub kind: ExprKind,
    pub span: Span,
}

#[derive(Debug)]
pub enum ExprKind {
    Int(i64),
    /// source spelling of the literal, with a leading `-` when negated
    Float(String),
    Bool(bool),
    Text(String),
    Unit,
    List(Vec<Expr>),
    Var(String),
    /// Variant construction: `Circle(2.0)`, `None`
    Ctor(String, Vec<Expr>),
    /// `{f: e, ...}` with optional spread `{..base, f: e}`
    Record { spread: Option<Box<Expr>>, fields: Vec<(String, Expr)> },
    /// `Account{f: e, ...}` / `Account{..base, f: e}`: nominal construction
    NamedRec { name: String, spread: Option<Box<Expr>>, fields: Vec<(String, Expr)> },
    Field(Box<Expr>, String),
    Call(Box<Expr>, Vec<Expr>),
    Lambda { params: Vec<(String, Option<TypeExpr>)>, body: Box<Expr> },
    /// `{ let a = e; ...; tail }`
    Block { lets: Vec<(String, Expr)>, tail: Box<Expr> },
    If { cond: Box<Expr>, then: Box<Expr>, els: Box<Expr> },
    Match { scrutinee: Box<Expr>, arms: Vec<(Pattern, Expr)> },
    Bin(BinOp, Box<Expr>, Box<Expr>),
    NotOp(Box<Expr>),
    /// unary minus
    NegOp(Box<Expr>),
    /// `expr?`
    Propagate(Box<Expr>),
    /// `?name`
    Hole(String),
}

#[derive(Debug)]
pub struct Pattern {
    pub kind: PatKind,
    pub span: Span,
}

#[derive(Debug)]
pub enum PatKind {
    Wildcard,
    Bind(String),
    LitInt(i64),
    /// source spelling, with a leading `-` when negative
    LitFloat(String),
    LitBool(bool),
    LitText(String),
    /// `Circle(p1, p2)` / bare `None`
    Ctor(String, Vec<Pattern>),
    /// `[p1, p2]` exact, or `[p1, ..rest]`: rest binder is the name or `_`
    List { heads: Vec<Pattern>, rest: Option<String> },
}

// ---------- float literal spelling ----------

pub open spec fn strip_leading_zeros(s: Seq<char>) -> Seq<char>
    decreases s.len(),
{
    if s.len() > 1 && s[0] == '0' {
        strip_leading_zeros(s.drop_first())
    } else {
        s
    }
}

pub open spec fn strip_trailing_zeros(s: Seq<char>) -> Seq<char>
    decreases s.len(),
{
    if s.len() > 0 && s.last() == '0' {
        strip_trailing_zeros(s.drop_last())
    } else {
        s
    }
}

pub open spec fn index_of_dot(s: Seq<char>, i: int) -> int
    decreases s.len() - i,
{
    if i < 0 || i >= s.len() {
        s.len() as int
    } else if s[i] == '.' {
        i
    } else {
        index_of_dot(s, i + 1)
    }
}

pub open spec fn float_neg(lexeme: Seq<char>) -> bool {
    lexeme.len() > 0 && lexeme[0] == '-'
}

pub open spec fn float_body(lexeme: Seq<char>) -> Seq<char> {
    if float_neg(lexeme) { lexeme.drop_first() } else { lexeme }
}

/// Integer digits of a float literal without leading zeros (at least `0`).
pub open spec fn float_int(lexeme: Seq<char>) -> Seq<char> {
    let body = float_body(lexeme);
    let ip = strip_leading_zeros(body.take(index_of_dot(body, 0)));
    if ip.len() == 0 { seq!['0'] } else { ip }
}

/// Fraction digits of a float literal without trailing zeros.
pub open spec fn float_frac(lexeme: Seq<char>) -> Seq<char> {
    let body = float_body(lexeme);
    let d = index_of_dot(body, 0);
    strip_trailing_zeros(if d < body.len() { body.skip(d + 1) } else { seq![] })
}

pub open spec fn float_sign(lexeme: Seq<char>) -> Seq<char> {
    if float_neg(lexeme) { seq!['-'] } else { seq![] }
}

/// Decimal spelling of a float literal taken from its digits: sign, integer
/// digits without leading zeros, and the fraction without trailing zeros
/// (no `.` when the fraction is zero). For literals with more digits than
/// an `f64` holds this is longer than the shortest form of the rounded
/// value (`0.1000000000000000055511151231257827` stays as written, where
/// the rounded `f64` displays as `0.1`).
pub open spec fn float_display(lexeme: Seq<char>) -> Seq<char> {
    float_sign(lexeme) + float_int(lexeme) + (if float_frac(lexeme).len() == 0 {
        seq![]
    } else {
        seq!['.'] + float_frac(lexeme)
    })
}

/// A float literal as source shows it: its display form, with `.0` added
/// when that form has no fraction.
pub open spec fn float_src(lexeme: Seq<char>) -> Seq<char> {
    if float_frac(lexeme).len() == 0 {
        float_display(lexeme) + seq!['.', '0']
    } else {
        float_display(lexeme)
    }
}

fn strip_leading(s: &[char], lo: usize, hi: usize) -> (r: usize)
    requires
        lo <= hi <= s@.len(),
    ensures
        lo <= r <= hi,
        s@.subrange(r as int, hi as int) == strip_leading_zeros(s@.subrange(lo as int, hi as int)),
{
    let mut k = lo;
    while hi - k > 1 && s[k] == '0'
        invariant
            lo <= k <= hi,
            hi <= s@.len(),
            strip_leading_zeros(s@.subrange(lo as int, hi as int)) == strip_leading_zeros(
                s@.subrange(k as int, hi as int),
            ),
        decreases hi - k,
    {
        assert(s@.subrange(k as int, hi as int).drop_first() =~= s@.subrange(k + 1, hi as int));
        k += 1;
    }
    k
}

fn strip_trailing(s: &[char], lo: usize, hi: usize) -> (r: usize)
    requires
        lo <= hi <= s@.len(),
    ensures
        lo <= r <= hi,
        s@.subrange(lo as int, r as int) == strip_trailing_zeros(s@.subrange(lo as int, hi as int)),
{
    let mut k = hi;
    while k > lo && s[k - 1] == '0'
        invariant
            lo <= k <= hi,
            hi <= s@.len(),
            strip_trailing_zeros(s@.subrange(lo as int, hi as int)) == strip_trailing_zeros(
                s@.subrange(lo as int, k as int),
            ),
        decreases k - lo,
    {
        assert(s@.subrange(lo as int, k as int).drop_last() =~= s@.subrange(lo as int, k - 1));
        k -= 1;
    }
    k
}

fn push_range(out: &mut String, s: &[char], lo: usize, hi: usize)
    requires
        lo <= hi <= s@.len(),
    ensures
        final(out)@ == old(out)@ + s@.subrange(lo as int, hi as int),
{
    let mut k = lo;
    while k < hi
        invariant
            lo <= k <= hi,
            hi <= s@.len(),
            out@ == old(out)@ + s@.subrange(lo as int, k as int),
        decreases hi - k,
    {
        push_char(out, s[k]);
        k += 1;
        assert(out@ =~= old(out)@ + s@.subrange(lo as int, k as int));
    }
}

/// Appends the display form of a float literal; returns whether it has a
/// fraction part.
#[verifier::rlimit(60)]
pub fn push_float_display(out: &mut String, lexeme: &str) -> (has_frac: bool)
    ensures
        final(out)@ == old(out)@ + float_display(lexeme@),
        has_frac == (float_frac(lexeme@).len() > 0),
{
    let cs = crate::text::chars_of(lexeme);
    let n = cs.len();
    let neg = n > 0 && cs[0] == '-';
    let b0: usize = if neg { 1 } else { 0 };
    let ghost body = float_body(lexeme@);
    assert(body =~= cs@.subrange(b0 as int, n as int));
    let mut d = b0;
    while d < n && cs[d] != '.'
        invariant
            b0 <= d <= n,
            n == cs@.len(),
            body == cs@.subrange(b0 as int, n as int),
            index_of_dot(body, 0) == index_of_dot(body, d - b0),
        decreases n - d,
    {
        d += 1;
    }
    let ghost dd = d - b0;
    assert(index_of_dot(body, 0) == dd);
    let ghost s0 = out@;
    if neg {
        push_char(out, '-');
    }
    assert(out@ =~= s0 + float_sign(lexeme@));
    let ghost s1 = out@;
    let ip = strip_leading(cs.as_slice(), b0, d);
    assert(body.take(dd) =~= cs@.subrange(b0 as int, d as int));
    if ip == d {
        push_char(out, '0');
    } else {
        push_range(out, cs.as_slice(), ip, d);
    }
    assert(out@ =~= s1 + float_int(lexeme@));
    let ghost s2 = out@;
    let fstart: usize = if d < n { d + 1 } else { n };
    let fend = strip_trailing(cs.as_slice(), fstart, n);
    proof {
        if d < n {
            assert(body.skip(dd + 1) =~= cs@.subrange(d + 1, n as int));
        } else {
            assert(cs@.subrange(n as int, n as int) =~= Seq::<char>::empty());
        }
    }
    let with_frac = fend > fstart;
    if with_frac {
        push_char(out, '.');
        push_range(out, cs.as_slice(), fstart, fend);
    }
    assert(out@ =~= s2 + (if float_frac(lexeme@).len() == 0 {
        seq![]
    } else {
        seq!['.'] + float_frac(lexeme@)
    }));
    assert(out@ =~= s0 + float_display(lexeme@));
    with_frac
}

// ---------- compact rendering of expressions ----------

pub open spec fn binop_sym(op: BinOp) -> Seq<char> {
    match op {
        BinOp::Add => "+"@,
        BinOp::Sub => "-"@,
        BinOp::Mul => "*"@,
        BinOp::Div => "/"@,
        BinOp::Rem => "%"@,
        BinOp::Concat => "++"@,
        BinOp::Eq => "=="@,
        BinOp::Ne => "!="@,
        BinOp::Lt => "<"@,
        BinOp::Le => "<="@,
        BinOp::Gt => ">"@,
        BinOp::Ge => ">="@,
        BinOp::And => "and"@,
        BinOp::Or => "or"@,
    }
}

pub fn binop_str(op: BinOp) -> (r: &'static str)
    ensures
        r@ == binop_sym(op),
{
    match op {
        BinOp::Add => "+",
        BinOp::Sub => "-",
        BinOp::Mul => "*",
        BinOp::Div => "/",
        BinOp::Rem => "%",
        BinOp::Concat => "++",
        BinOp::Eq => "==",
        BinOp::Ne => "!=",
        BinOp::Lt => "<",
        BinOp::Le => "<=",
        BinOp::Gt => ">",
        BinOp::Ge => ">=",
        BinOp::And => "and",
        BinOp::Or => "or",
    }
}

pub open spec fn bool_text(b: bool) -> Seq<char> {
    if b { "true"@ } else { "false"@ }
}

/// Parenthesised when the expression is a binary operation, conditional or
/// lambda.
pub open spec fn atom_text(e: Expr) -> Seq<char>
    decreases e, 2nat,
{
    match e.kind {
        ExprKind::Bin(_, _, _) | ExprKind::If { .. } | ExprKind::Lambda { .. } => seq!['('] + expr_text_spec(e)
            + seq![')'],
        _ => expr_text_spec(e),
    }
}

/// The texts of `es` joined by `", "`.
pub open spec fn exprs_text(es: Seq<Expr>) -> Seq<char>
    decreases es, 0nat,
{
    if es.len() == 0 {
        seq![]
    } else if es.len() == 1 {
        expr_text_spec(es[0])
    } else {
        expr_text_spec(es[0]) + ", "@ + exprs_text(es.subrange(1, es.len() as int))
    }
}

/// `name: text` entries joined by `", "`.
pub open spec fn fields_text(fs: Seq<(String, Expr)>) -> Seq<char>
    decreases fs, 0nat,
{
    if fs.len() == 0 {
        seq![]
    } else if fs.len() == 1 {
        fs[0].0@ + ": "@ + expr_text_spec(fs[0].1)
    } else {
        fs[0].0@ + ": "@ + expr_text_spec(fs[0].1) + ", "@ + fields_text(fs.subrange(1, fs.len() as int))
    }
}

/// Body of a record construction: `..base` followed by the fields, all
/// joined by `", "`.
pub open spec fn record_body(e: Expr) -> Seq<char>
    decreases e, 0nat,
{
    match e.kind {
        ExprKind::Record { spread, fields } => match spread {
            Some(b) => if fields@.len() == 0 {
                ".."@ + atom_text(*b)
            } else {
                ".."@ + atom_text(*b) + ", "@ + fields_text(fields@)
            },
            None => fields_text(fields@),
        },
        ExprKind::NamedRec { spread, fields, .. } => match spread {
            Some(b) => if fields@.len() == 0 {
                ".."@ + atom_text(*b)
            } else {
                ".."@ + atom_text(*b) + ", "@ + fields_text(fields@)
            },
            None => fields_text(fields@),
        },
        _ => seq![],
    }
}

/// The names of lambda parameters joined by `", "`.
pub open spec fn names_text(ps: Seq<(String, Option<TypeExpr>)>) -> Seq<char>
    decreases ps.len(),
{
    if ps.len() == 0 {
        seq![]
    } else if ps.len() == 1 {
        ps[0].0@
    } else {
        ps[0].0@ + ", "@ + names_text(ps.subrange(1, ps.len() as int))
    }
}

/// Compact source-like rendering of an expression, used in diagnostics;
/// blocks and matches abbreviate.
pub open spec fn expr_text_spec(e: Expr) -> Seq<char>
    decreases e, 1nat,
{
    match e.kind {
        ExprKind::Int(v) => int_text(v as int),
        ExprKind::Float(f) => float_src(f@),
        ExprKind::Bool(b) => bool_text(b),
        ExprKind::Text(s) => debug_str_spec(s@),
        ExprKind::Unit => "unit"@,
        ExprKind::Var(n) => n@,
        ExprKind::Hole(n) => seq!['?'] + n@,
        ExprKind::Ctor(n, args) => if args@.len() == 0 {
            n@
        } else {
            n@ + seq!['('] + exprs_text(args@) + seq![')']
        },
        ExprKind::List(es) => seq!['['] + exprs_text(es@) + seq![']'],
        ExprKind::Record { spread, fields } => seq!['{'] + record_body(e) + seq!['}'],
        ExprKind::NamedRec { name, spread, fields } => name@ + seq!['{'] + record_body(e) + seq!['}'],
        ExprKind::Field(b, f) => atom_text(*b) + seq!['.'] + f@,
        ExprKind::Call(c, args) => atom_text(*c) + seq!['('] + exprs_text(args@) + seq![')'],
        ExprKind::Lambda { params, body } => seq!['('] + names_text(params@) + ") => "@ + expr_text_spec(
            *body,
        ),
        ExprKind::Block { .. } => "{ ... }"@,
        ExprKind::If { cond, then, els } => "if "@ + expr_text_spec(*cond) + " then "@ + expr_text_spec(
            *then,
        ) + " else "@ + expr_text_spec(*els),
        ExprKind::Match { scrutinee, .. } => "match "@ + expr_text_spec(*scrutinee) + " { ... }"@,
        ExprKind::Bin(op, l, r) => atom_text(*l) + seq![' '] + binop_sym(op) + seq![' '] + atom_text(*r),
        ExprKind::NotOp(i) => "not "@ + atom_text(*i),
        ExprKind::NegOp(i) => seq!['-'] + atom_text(*i),
        ExprKind::Propagate(i) => atom_text(*i) + seq!['?'],
    }
}

fn push_atom(out: &mut String, e: &Expr)
    ensures
        final(out)@ == old(out)@ + atom_text(*e),
    decreases *e, 2nat,
{
    match &e.kind {
        ExprKind::Bin(_, _, _) | ExprKind::If { .. } | ExprKind::Lambda { .. } => {
            push_char(out, '(');
            push_expr(out, e);
            push_char(out, ')');
            assert(out@ =~= old(out)@ + atom_text(*e));
        }
        _ => {
            push_expr(out, e);
        }
    }
}

fn push_exprs(out: &mut String, es: &Vec<Expr>)
    ensures
        final(out)@ == old(out)@ + exprs_text(es@),
    decreases es@, 0nat,
{
    let mut i: usize = 0;
    let ghost o = out@;
    assert(es@.subrange(0, es@.len() as int) =~= es@);
    while i < es.len()
        invariant
            i <= es@.len(),
            out@ + (if i == 0 { seq![] } else if i < es@.len() { ", "@ } else { seq![] })
                + exprs_text(es@.subrange(i as int, es@.len() as int)) == o + exprs_text(es@),
        decreases es.len() - i,
    {
        let ghost rest = es@.subrange(i as int, es@.len() as int);
        if i > 0 {
            push_str(out, ", ");
        }
        proof {
            assert(decreases_to!(es@ => es@[i as int]));
        }
        push_expr(out, &es[i]);
        proof {
            assert(rest[0] == es@[i as int]);
            assert(rest.subrange(1, rest.len() as int) =~= es@.subrange(i + 1, es@.len() as int));
        }
        i += 1;
        proof {
            if i < es@.len() {
                assert(exprs_text(rest) == expr_text_spec(rest[0]) + ", "@ + exprs_text(
                    es@.subrange(i as int, es@.len() as int),
                ));
            } else {
                assert(exprs_text(rest) == expr_text_spec(rest[0]));
                assert(es@.subrange(i as int, es@.len() as int) =~= Seq::<Expr>::empty());
            }
        }
    }
    proof {
        assert(es@.subrange(i as int, es@.len() as int) =~= Seq::<Expr>::empty());
        if i == 0 {
            assert(es@ =~= Seq::<Expr>::empty());
        }
    }
}

fn push_fields(out: &mut String, fs: &Vec<(String, Expr)>)
    ensures
        final(out)@ == old(out)@ + fields_text(fs@),
    decreases fs@, 0nat,
{
    let mut i: usize = 0;
    let ghost o = out@;
    assert(fs@.subrange(0, fs@.len() as int) =~= fs@);
    while i < fs.len()
        invariant
            i <= fs@.len(),
            out@ + (if i == 0 { seq![] } else if i < fs@.len() { ", "@ } else { seq![] })
                + fields_text(fs@.subrange(i as int, fs@.len() as int)) == o + fields_text(fs@),
        decreases fs.len() - i,
    {
        let ghost rest = fs@.subrange(i as int, fs@.len() as int);
        if i > 0 {
            push_str(out, ", ");
        }
        push_str(out, fs[i].0.as_str());
        push_str(out, ": ");
        proof {
            assert(decreases_to!(fs@ => fs@[i as int]));
            assert(decreases_to!(fs@[i as int] => fs@[i as int].1));
        }
        push_expr(out, &fs[i].1);
        proof {
            assert(rest[0] == fs@[i as int]);
            assert(rest.subrange(1, rest.len() as int) =~= fs@.subrange(i + 1, fs@.len() as int));
        }
        i += 1;
        proof {
            if i < fs@.len() {
                assert(fields_text(rest) == rest[0].0@ + ": "@ + expr_text_spec(rest[0].1) + ", "@
                    + fields_text(fs@.subrange(i as int, fs@.len() as int)));
            } else {
                assert(fields_text(rest) == rest[0].0@ + ": "@ + expr_text_spec(rest[0].1));
                assert(fs@.subrange(i as int, fs@.len() as int) =~= Seq::<(String, Expr)>::empty());
            }
        }
    }
    proof {
        assert(fs@.subrange(i as int, fs@.len() as int) =~= Seq::<(String, Expr)>::empty());
        if i == 0 {
            assert(fs@ =~= Seq::<(String, Expr)>::empty());
        }
    }
}

fn push_record_body(out: &mut String, e: &Expr)
    ensures
        final(out)@ == old(out)@ + record_body(*e),
    decreases *e, 0nat,
{
    let ghost o = out@;
    match &e.kind {
        ExprKind::Record { spread, fields } => {
            match spread {
                Some(b) => {
                    push_str(out, "..");
                    push_atom(out, b);
                    if fields.len() > 0 {
                        push_str(out, ", ");
                        push_fields(out, fields);
                    }
                }
                None => {
                    push_fields(out, fields);
                }
            }
        }
        ExprKind::NamedRec { spread, fields, .. } => {
            match spread {
                Some(b) => {
                    push_str(out, "..");
                    push_atom(out, b);
                    if fields.len() > 0 {
                        push_str(out, ", ");
                        push_fields(out, fields);
                    }
                }
                None => {
                    push_fields(out, fields);
                }
            }
        }
        _ => {}
    }
    assert(out@ =~= o + record_body(*e));
}

fn push_names(out: &mut String, ps: &Vec<(String, Option<TypeExpr>)>)
    ensures
        final(out)@ == old(out)@ + names_text(ps@),
{
    let mut i: usize = 0;
    let ghost o = out@;
    assert(ps@.subrange(0, ps@.len() as int) =~= ps@);
    while i < ps.len()
        invariant
            i <= ps@.len(),
            out@ + (if i == 0 { seq![] } else if i < ps@.len() { ", "@ } else { seq![] })
                + names_text(ps@.subrange(i as int, ps@.len() as int)) == o + names_text(ps@),
        decreases ps.len() - i,
    {
        let ghost rest = ps@.subrange(i as int, ps@.len() as int);
        if i > 0 {
            push_str(out, ", ");
        }
        push_str(out, ps[i].0.as_str());
        proof {
            assert(rest[0] == ps@[i as int]);
            assert(rest.subrange(1, rest.len() as int) =~= ps@.subrange(i + 1, ps@.len() as int));
        }
        i += 1;
        proof {
            if i >= ps@.len() {
                assert(ps@.subrange(i as int, ps@.len() as int) =~= Seq::<(String, Option<TypeExpr>)>::empty());
            }
        }
    }
    proof {
        assert(ps@.subrange(i as int, ps@.len() as int) =~= Seq::<(String, Option<TypeExpr>)>::empty());
        if i == 0 {
            assert(ps@ =~= Seq::<(String, Option<TypeExpr>)>::empty());
        }
    }
}

fn push_expr(out: &mut String, e: &Expr)
    ensures
        final(out)@ == old(out)@ + expr_text_spec(*e),
    decreases *e, 1nat,
{
    let ghost o = out@;
    match &e.kind {
        ExprKind::Int(v) => {
            let t = i64_text(*v);
            push_str(out, t.as_str());
        }
        ExprKind::Float(f) => {
            let with_frac = push_float_display(out, f.as_str());
            if !with_frac {
                push_str(out, ".0");
            }
        }
        ExprKind::Bool(b) => {
            push_str(out, if *b { "true" } else { "false" });
        }
        ExprKind::Text(s) => {
            let t = debug_str(s.as_str());
            push_str(out, t.as_str());
        }
        ExprKind::Unit => {
            push_str(out, "unit");
        }
        ExprKind::Var(n) => {
            push_str(out, n.as_str());
        }
        ExprKind::Hole(n) => {
            push_char(out, '?');
            push_str(out, n.as_str());
        }
        ExprKind::Ctor(n, args) => {
            push_str(out, n.as_str());
            if args.len() > 0 {
                push_char(out, '(');
                push_exprs(out, args);
                push_char(out, ')');
            }
        }
        ExprKind::List(es) => {
            push_char(out, '[');
            push_exprs(out, es);
            push_char(out, ']');
        }
        ExprKind::Record { spread, fields } => {
            push_char(out, '{');
            push_record_body(out, e);
            push_char(out, '}');
        }
        ExprKind::NamedRec { name, spread, fields } => {
            push_str(out, name.as_str());
            push_char(out, '{');
            push_record_body(out, e);
            push_char(out, '}');
        }
        ExprKind::Field(b, f) => {
            push_atom(out, b);
            push_char(out, '.');
            push_str(out, f.as_str());
        }
        ExprKind::Call(c, args) => {
            push_atom(out, c);
            push_char(out, '(');
            push_exprs(out, args);
            push_char(out, ')');
        }
        ExprKind::Lambda { params, body } => {
            push_char(out, '(');
            push_names(out, params);
            push_str(out, ") => ");
            push_expr(out, body);
        }
        ExprKind::Block { .. } => {
            push_str(out, "{ ... }");
        }
        ExprKind::If { cond, then, els } => {
            push_str(out, "if ");
            push_expr(out, cond);
            push_str(out, " then ");
            push_expr(out, then);
            push_str(out, " else ");
            push_expr(out, els);
        }
        ExprKind::Match { scrutinee, .. } => {
            push_str(out, "match ");
            push_expr(out, scrutinee);
            push_str(out, " { ... }");
        }
        ExprKind::Bin(op, l, r) => {
            push_atom(out, l);
            push_char(out, ' ');
            push_str(out, binop_str(*op));
            push_char(out, ' ');
            push_atom(out, r);
        }
        ExprKind::NotOp(i) => {
            push_str(out, "not ");
            push_atom(out, i);
        }
        ExprKind::NegOp(i) => {
            push_char(out, '-');
            push_atom(out, i);
        }
        ExprKind::Propagate(i) => {
            push_atom(out, i);
            push_char(out, '?');
        }
    }
    proof {
        match &e.kind {
            ExprKind::Float(f) => {
                reveal_strlit(".0");
            }
            _ => {}
        }
        assert(out@ =~= o + expr_text_spec(*e));
    }
}

/// Compact source-like rendering of an expression, used in diagnostics
/// (e.g. showing a violated contract). Blocks and matches abbreviate.
/// Float literals are shown from their written digits (`float_src`), not
/// from the rounded `f64`, so a literal with more digits than an `f64`
/// holds is shown in full rather than in the rounded value's shortest form.
pub fn expr_text(e: &Expr) -> (r: String)
    ensures
        r@ == expr_text_spec(*e),
{
    let mut out = String::new();
    push_expr(&mut out, e);
    assert(out@ =~= expr_text_spec(*e));
    out
}

} // verus!
