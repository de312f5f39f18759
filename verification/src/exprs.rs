//! What the expression parser yields, as a function of the token stream:
//! the expression tree as plain values, and the grammar that reads it.
use vstd::prelude::*;
use crate::ast::{BinOp, Expr, ExprKind, Pattern, TypeExpr};
use crate::diag::{Span, merge_spec};
use crate::lexer::{TokV, Token, keyword, one_char, two_char};
use crate::ast::binop_sym;
use crate::parser::{
    ErrV, PResult, PatParse, PatternV, TyParse, TypeV, describe_spec, diag_as, pat_at, pat_view, stream_end_err,
    te_view, ty_at,
};

verus! {

/// The content of an expression: names and literals as plain values.
pub enum ExV {
    Int(int),
    Float(Seq<char>),
    Bool(bool),
    Text(Seq<char>),
    Unit,
    List(Seq<ExprV>),
    Var(Seq<char>),
    Ctor(Seq<char>, Seq<ExprV>),
    Record(Option<Box<ExprV>>, Seq<(Seq<char>, ExprV)>),
    NamedRec(Seq<char>, Option<Box<ExprV>>, Seq<(Seq<char>, ExprV)>),
    Field(Box<ExprV>, Seq<char>),
    Call(Box<ExprV>, Seq<ExprV>),
    Lambda(Seq<(Seq<char>, Option<TypeV>)>, Box<ExprV>),
    Block(Seq<(Seq<char>, ExprV)>, Box<ExprV>),
    If(Box<ExprV>, Box<ExprV>, Box<ExprV>),
    Match(Box<ExprV>, Seq<(PatternV, ExprV)>),
    Bin(BinOp, Box<ExprV>, Box<ExprV>),
    Not(Box<ExprV>),
    Neg(Box<ExprV>),
    Propagate(Box<ExprV>),
    Hole(Seq<char>),
}

pub struct ExprV {
    pub kind: ExV,
    pub span: Span,
}

pub open spec fn ex_view(e: Expr) -> ExprV
    decreases e, 2nat,
{
    ExprV { kind: kind_view(e.kind), span: e.span }
}

/// The content of an expression node, its children taken by their views.
#[verifier::opaque]
pub open spec fn kind_view(k: ExprKind) -> ExV
    decreases k, 1nat,
{
    match k {
        ExprKind::Int(v) => ExV::Int(v as int),
        ExprKind::Float(f) => ExV::Float(f@),
        ExprKind::Bool(b) => ExV::Bool(b),
        ExprKind::Text(t) => ExV::Text(t@),
        ExprKind::Unit => ExV::Unit,
        ExprKind::List(es) => ExV::List(exs_view(es@)),
        ExprKind::Var(n) => ExV::Var(n@),
        ExprKind::Ctor(n, es) => ExV::Ctor(n@, exs_view(es@)),
        ExprKind::Record { spread, fields } => ExV::Record(spread_view(spread), fields_view(fields@)),
        ExprKind::NamedRec { name, spread, fields } => ExV::NamedRec(
            name@,
            spread_view(spread),
            fields_view(fields@),
        ),
        ExprKind::Field(b, f) => ExV::Field(Box::new(ex_view(*b)), f@),
        ExprKind::Call(b, args) => ExV::Call(Box::new(ex_view(*b)), exs_view(args@)),
        ExprKind::Lambda { params, body } => ExV::Lambda(lparams_view(params@), Box::new(ex_view(*body))),
        ExprKind::Block { lets, tail } => ExV::Block(fields_view(lets@), Box::new(ex_view(*tail))),
        ExprKind::If { cond, then, els } => ExV::If(
            Box::new(ex_view(*cond)),
            Box::new(ex_view(*then)),
            Box::new(ex_view(*els)),
        ),
        ExprKind::Match { scrutinee, arms } => ExV::Match(Box::new(ex_view(*scrutinee)), arms_view(arms@)),
        ExprKind::Bin(op, l, r) => ExV::Bin(op, Box::new(ex_view(*l)), Box::new(ex_view(*r))),
        ExprKind::NotOp(b) => ExV::Not(Box::new(ex_view(*b))),
        ExprKind::NegOp(b) => ExV::Neg(Box::new(ex_view(*b))),
        ExprKind::Propagate(b) => ExV::Propagate(Box::new(ex_view(*b))),
        ExprKind::Hole(n) => ExV::Hole(n@),
    }
}

pub open spec fn spread_view(s: Option<Box<Expr>>) -> Option<Box<ExprV>>
    decreases s, 0nat,
{
    match s {
        Some(b) => Some(Box::new(ex_view(*b))),
        None => None,
    }
}

pub open spec fn exs_view(es: Seq<Expr>) -> Seq<ExprV>
    decreases es, 0nat,
{
    if es.len() == 0 {
        seq![]
    } else {
        seq![ex_view(es[0])] + exs_view(es.subrange(1, es.len() as int))
    }
}

pub open spec fn fields_view(fs: Seq<(String, Expr)>) -> Seq<(Seq<char>, ExprV)>
    decreases fs, 0nat,
{
    if fs.len() == 0 {
        seq![]
    } else {
        seq![(fs[0].0@, ex_view(fs[0].1))] + fields_view(fs.subrange(1, fs.len() as int))
    }
}

pub open spec fn arms_view(arms: Seq<(Pattern, Expr)>) -> Seq<(PatternV, ExprV)>
    decreases arms, 0nat,
{
    if arms.len() == 0 {
        seq![]
    } else {
        seq![(pat_view(arms[0].0), ex_view(arms[0].1))] + arms_view(arms.subrange(1, arms.len() as int))
    }
}

pub open spec fn lparam_view(p: (String, Option<TypeExpr>)) -> (Seq<char>, Option<TypeV>) {
    (p.0@, match p.1 {
        Some(t) => Some(te_view(t)),
        None => None,
    })
}

pub open spec fn lparams_view(ps: Seq<(String, Option<TypeExpr>)>) -> Seq<(Seq<char>, Option<TypeV>)> {
    ps.map_values(|p: (String, Option<TypeExpr>)| lparam_view(p))
}

pub proof fn lemma_exs_view_push(s: Seq<Expr>, x: Expr)
    ensures
        exs_view(s.push(x)) == exs_view(s).push(ex_view(x)),
    decreases s.len(),
{
    let t = s.push(x);
    if s.len() == 0 {
        assert(t[0] == x);
        assert(t.subrange(1, 1) =~= Seq::<Expr>::empty());
        assert(exs_view(t.subrange(1, 1)) =~= Seq::<ExprV>::empty());
        assert(exs_view(s) =~= Seq::<ExprV>::empty());
        assert(exs_view(t) =~= seq![ex_view(x)]);
    } else {
        assert(t.subrange(1, s.len() + 1 as int) =~= s.subrange(1, s.len() as int).push(x));
        lemma_exs_view_push(s.subrange(1, s.len() as int), x);
        assert(exs_view(t) =~= exs_view(s).push(ex_view(x)));
    }
}

pub proof fn lemma_exs_view_len(s: Seq<Expr>)
    ensures
        exs_view(s).len() == s.len(),
    decreases s.len(),
{
    if s.len() > 0 {
        lemma_exs_view_len(s.subrange(1, s.len() as int));
    }
}

pub proof fn lemma_fields_view_push(s: Seq<(String, Expr)>, x: (String, Expr))
    ensures
        fields_view(s.push(x)) == fields_view(s).push((x.0@, ex_view(x.1))),
    decreases s.len(),
{
    let t = s.push(x);
    if s.len() == 0 {
        assert(t[0] == x);
        assert(t.subrange(1, 1) =~= Seq::<(String, Expr)>::empty());
        assert(fields_view(t.subrange(1, 1)) =~= Seq::<(Seq<char>, ExprV)>::empty());
        assert(fields_view(s) =~= Seq::<(Seq<char>, ExprV)>::empty());
        assert(fields_view(t) =~= seq![(x.0@, ex_view(x.1))]);
    } else {
        assert(t.subrange(1, s.len() + 1 as int) =~= s.subrange(1, s.len() as int).push(x));
        lemma_fields_view_push(s.subrange(1, s.len() as int), x);
        assert(fields_view(t) =~= fields_view(s).push((x.0@, ex_view(x.1))));
    }
}

pub proof fn lemma_arms_view_push(s: Seq<(Pattern, Expr)>, x: (Pattern, Expr))
    ensures
        arms_view(s.push(x)) == arms_view(s).push((pat_view(x.0), ex_view(x.1))),
    decreases s.len(),
{
    let t = s.push(x);
    if s.len() == 0 {
        assert(t[0] == x);
        assert(t.subrange(1, 1) =~= Seq::<(Pattern, Expr)>::empty());
        assert(arms_view(t.subrange(1, 1)) =~= Seq::<(PatternV, ExprV)>::empty());
        assert(arms_view(s) =~= Seq::<(PatternV, ExprV)>::empty());
        assert(arms_view(t) =~= seq![(pat_view(x.0), ex_view(x.1))]);
    } else {
        assert(t.subrange(1, s.len() + 1 as int) =~= s.subrange(1, s.len() as int).push(x));
        lemma_arms_view_push(s.subrange(1, s.len() as int), x);
        assert(arms_view(t) =~= arms_view(s).push((pat_view(x.0), ex_view(x.1))));
    }
}

pub proof fn lemma_lparams_view_push(s: Seq<(String, Option<TypeExpr>)>, x: (String, Option<TypeExpr>))
    ensures
        lparams_view(s.push(x)) == lparams_view(s).push(lparam_view(x)),
{
    assert(lparams_view(s.push(x)) =~= lparams_view(s).push(lparam_view(x)));
}

// ---------- the grammar ----------

/// What parsing an expression from a position gives: the expression and
/// the position after it, or the error.
pub enum ExParse {
    Parsed(ExprV, int),
    Failed(ErrV),
}

/// The token at `i`, `Eof` past either end.
pub open spec fn tk(ts: Seq<Token>, i: int) -> TokV {
    if 0 <= i < ts.len() {
        ts[i].tok@
    } else {
        TokV::Eof
    }
}

/// The span of the token at `i`.
pub open spec fn spn(ts: Seq<Token>, i: int) -> Span {
    if 0 <= i < ts.len() {
        ts[i].span
    } else {
        Span { start: 0, end: 0 }
    }
}

/// The error `expected <what>, found <token at i>`, citing `rule`.
pub open spec fn exp_err(ts: Seq<Token>, i: int, rule: Seq<char>, what: Seq<char>) -> ErrV {
    ErrV { rule, msg: "expected "@ + what + ", found "@ + describe_spec(tk(ts, i)), span: spn(ts, i) }
}

pub open spec fn exp_fail(ts: Seq<Token>, i: int, rule: Seq<char>, what: Seq<char>) -> ExParse {
    ExParse::Failed(exp_err(ts, i, rule, what))
}

/// What parsing a record field `name: value` gives: the name, the value and
/// the position after it, or the error.
pub enum FieldParse {
    Parsed(Seq<char>, ExprV, int),
    Failed(ErrV),
}

/// Parse a record field `name: value` at token `q`, citing `rule` on error.
pub open spec fn field_at(ts: Seq<Token>, q: int, rule: Seq<char>) -> FieldParse
    decreases ts.len() - q, 31nat,
{
    if q < 0 || q >= ts.len() {
        FieldParse::Failed(stream_end_err())
    } else {
        match tk(ts, q) {
            TokV::Ident(f) => if tk(ts, q + 1) != TokV::Colon {
                FieldParse::Failed(exp_err(ts, q + 1, rule, "`:`"@))
            } else {
                match ex_at(ts, q + 2, false) {
                    ExParse::Failed(e) => FieldParse::Failed(e),
                    ExParse::Parsed(v, q2) => FieldParse::Parsed(f, v, q2),
                }
            },
            _ => FieldParse::Failed(exp_err(ts, q, rule, "a field name"@)),
        }
    }
}

/// The binary operator that `t` spells at precedence level `lvl`
/// (0: `* / %`, 1: `+ - ++`, 2: comparisons, 3: `and`, 4: `or`).
pub open spec fn op_of(lvl: nat, t: TokV) -> Option<BinOp> {
    match t {
        TokV::Or => if lvl == 4 { Some(BinOp::Or) } else { None },
        TokV::And => if lvl == 3 { Some(BinOp::And) } else { None },
        TokV::EqEq => if lvl == 2 { Some(BinOp::Eq) } else { None },
        TokV::Ne => if lvl == 2 { Some(BinOp::Ne) } else { None },
        TokV::Lt => if lvl == 2 { Some(BinOp::Lt) } else { None },
        TokV::Le => if lvl == 2 { Some(BinOp::Le) } else { None },
        TokV::Gt => if lvl == 2 { Some(BinOp::Gt) } else { None },
        TokV::Ge => if lvl == 2 { Some(BinOp::Ge) } else { None },
        TokV::Plus => if lvl == 1 { Some(BinOp::Add) } else { None },
        TokV::Minus => if lvl == 1 { Some(BinOp::Sub) } else { None },
        TokV::PlusPlus => if lvl == 1 { Some(BinOp::Concat) } else { None },
        TokV::Star => if lvl == 0 { Some(BinOp::Mul) } else { None },
        TokV::Slash => if lvl == 0 { Some(BinOp::Div) } else { None },
        TokV::Percent => if lvl == 0 { Some(BinOp::Rem) } else { None },
        _ => None,
    }
}

/// How the lexer reads a spelling as a single token: a one- or
/// two-character operator, or a keyword.
pub open spec fn spelled_as(s: Seq<char>, t: TokV) -> bool {
    ||| s.len() == 1 && one_char(s[0]) == Some(t)
    ||| s.len() == 2 && two_char(s[0], s[1]) == Some(t)
    ||| keyword(s) == Some(t)
}

/// Each operator token parses to the operator it spells: the operator's
/// written form is exactly what the lexer reads as that token, and it is
/// how a diagnostic names the token.
pub proof fn lemma_op_spelling(lvl: nat, t: TokV)
    ensures
        op_of(lvl, t) matches Some(op) ==> spelled_as(binop_sym(op), t) && describe_spec(t) == seq!['`'] + binop_sym(op)
            + seq!['`'],
{
    reveal_strlit("!=");
    reveal_strlit("%");
    reveal_strlit("*");
    reveal_strlit("+");
    reveal_strlit("++");
    reveal_strlit("-");
    reveal_strlit("/");
    reveal_strlit("<");
    reveal_strlit("<=");
    reveal_strlit("==");
    reveal_strlit(">");
    reveal_strlit(">=");
    reveal_strlit("_");
    reveal_strlit("`!=`");
    reveal_strlit("`%`");
    reveal_strlit("`*`");
    reveal_strlit("`++`");
    reveal_strlit("`+`");
    reveal_strlit("`-`");
    reveal_strlit("`/`");
    reveal_strlit("`<=`");
    reveal_strlit("`<`");
    reveal_strlit("`==`");
    reveal_strlit("`>=`");
    reveal_strlit("`>`");
    reveal_strlit("`and`");
    reveal_strlit("`or`");
    reveal_strlit("and");
    reveal_strlit("def");
    reveal_strlit("else");
    reveal_strlit("false");
    reveal_strlit("if");
    reveal_strlit("let");
    reveal_strlit("match");
    reveal_strlit("not");
    reveal_strlit("or");
    reveal_strlit("test");
    reveal_strlit("then");
    reveal_strlit("true");
    reveal_strlit("type");
    reveal_strlit("unit");
    reveal_strlit("where");
    match op_of(lvl, t) {
        Some(op) => {
            let s = binop_sym(op);
            if s.len() == 1 {
                assert(one_char(s[0]) == Some(t));
            } else if s.len() == 2 && op != BinOp::Or {
                assert(two_char(s[0], s[1]) == Some(t));
            } else {
                assert(keyword(s) == Some(t));
            }
            assert(describe_spec(t) =~= seq!['`'] + s + seq!['`']);
        },
        None => {},
    }
}

pub open spec fn node(kind: ExV, span: Span) -> ExprV {
    ExprV { kind, span }
}

/// A call of `e` on `args`; on a bare constructor it is variant construction.
pub open spec fn apply_call(e: ExprV, args: Seq<ExprV>, span: Span) -> ExprV {
    match e.kind {
        ExV::Ctor(n, existing) => if existing.len() == 0 {
            node(ExV::Ctor(n, args), span)
        } else {
            node(ExV::Call(Box::new(e), args), span)
        },
        _ => node(ExV::Call(Box::new(e), args), span),
    }
}

/// Whether the `(` at token `i` (with `depth` brackets open before it) starts
/// a lambda: the bracket that closes it is followed by `=>`.
pub open spec fn la_scan(ts: Seq<Token>, i: int, depth: nat) -> bool
    decreases ts.len() - i,
{
    if i < 0 || i >= ts.len() {
        false
    } else {
        match tk(ts, i) {
            TokV::LParen | TokV::LBracket | TokV::LBrace => la_scan(ts, i + 1, depth + 1),
            TokV::RParen | TokV::RBracket | TokV::RBrace => if depth <= 1 {
                tk(ts, i + 1) == TokV::FatArrow
            } else {
                la_scan(ts, i + 1, (depth - 1) as nat)
            },
            TokV::Eof => false,
            _ => la_scan(ts, i + 1, depth),
        }
    }
}

/// Parse an expression at token `p`; `ns` forbids `Name{` construction
/// (as in a match scrutinee).
pub open spec fn ex_at(ts: Seq<Token>, p: int, ns: bool) -> ExParse
    decreases ts.len() - p, 30nat,
{
    if p < 0 || p >= ts.len() {
        ExParse::Failed(stream_end_err())
    } else {
        bin_at(ts, p, ns, 4)
    }
}

/// Parse a chain of binary operators of level `lvl` (or tighter) at `p`.
pub open spec fn bin_at(ts: Seq<Token>, p: int, ns: bool, lvl: nat) -> ExParse
    decreases ts.len() - p, 20 + lvl,
{
    if p < 0 || p >= ts.len() || lvl > 4 {
        ExParse::Failed(stream_end_err())
    } else {
        let first = if lvl == 0 {
            unary_at(ts, p, ns)
        } else {
            bin_at(ts, p, ns, (lvl - 1) as nat)
        };
        match first {
            ExParse::Failed(e) => ExParse::Failed(e),
            ExParse::Parsed(l, q) => if q <= p || q >= ts.len() {
                ExParse::Failed(stream_end_err())
            } else {
                bin_rest(ts, q, l, ns, lvl)
            },
        }
    }
}

/// The rest of a level-`lvl` chain from token `q` on, after `lhs`.
pub open spec fn bin_rest(ts: Seq<Token>, q: int, lhs: ExprV, ns: bool, lvl: nat) -> ExParse
    decreases ts.len() - q, 20 + lvl,
{
    if q < 0 || q >= ts.len() || lvl > 4 {
        ExParse::Failed(stream_end_err())
    } else {
        match op_of(lvl, tk(ts, q)) {
            None => ExParse::Parsed(lhs, q),
            Some(op) => {
                let rhs = if lvl == 0 {
                    unary_at(ts, q + 1, ns)
                } else {
                    bin_at(ts, q + 1, ns, (lvl - 1) as nat)
                };
                match rhs {
                    ExParse::Failed(e) => ExParse::Failed(e),
                    ExParse::Parsed(r, q2) => if q2 <= q + 1 || q2 >= ts.len() {
                        ExParse::Failed(stream_end_err())
                    } else {
                        bin_rest(
                            ts,
                            q2,
                            node(ExV::Bin(op, Box::new(lhs), Box::new(r)), merge_spec(lhs.span, r.span)),
                            ns,
                            lvl,
                        )
                    },
                }
            },
        }
    }
}

/// Parse `not e`, `-e`, a negative literal, or a postfix expression at `p`.
pub open spec fn unary_at(ts: Seq<Token>, p: int, ns: bool) -> ExParse
    decreases ts.len() - p, 19nat,
{
    if p < 0 || p >= ts.len() {
        ExParse::Failed(stream_end_err())
    } else {
        let start = spn(ts, p);
        match tk(ts, p) {
            TokV::Not => match unary_at(ts, p + 1, ns) {
                ExParse::Failed(e) => ExParse::Failed(e),
                ExParse::Parsed(i, q) => ExParse::Parsed(
                    node(ExV::Not(Box::new(i)), merge_spec(start, i.span)),
                    q,
                ),
            },
            TokV::Minus => match tk(ts, p + 1) {
                TokV::Int(v) => ExParse::Parsed(
                    node(ExV::Int(if v == i64::MIN { v } else { -v }), merge_spec(start, spn(ts, p + 1))),
                    p + 2,
                ),
                TokV::Float(f) => ExParse::Parsed(
                    node(ExV::Float(seq!['-'] + f), merge_spec(start, spn(ts, p + 1))),
                    p + 2,
                ),
                _ => match unary_at(ts, p + 1, ns) {
                    ExParse::Failed(e) => ExParse::Failed(e),
                    ExParse::Parsed(i, q) => ExParse::Parsed(
                        node(ExV::Neg(Box::new(i)), merge_spec(start, i.span)),
                        q,
                    ),
                },
            },
            _ => postfix_at(ts, p, ns),
        }
    }
}

/// Parse a primary expression and its calls, field accesses and `?` at `p`.
pub open spec fn postfix_at(ts: Seq<Token>, p: int, ns: bool) -> ExParse
    decreases ts.len() - p, 18nat,
{
    if p < 0 || p >= ts.len() {
        ExParse::Failed(stream_end_err())
    } else {
        match primary_at(ts, p, ns) {
            ExParse::Failed(e) => ExParse::Failed(e),
            ExParse::Parsed(e, q) => if q <= p || q >= ts.len() {
                ExParse::Failed(stream_end_err())
            } else {
                post_rest(ts, q, e)
            },
        }
    }
}

/// Whether `t` starts a postfix operator: a call, a field access or `?`.
pub open spec fn is_postfix_op(t: TokV) -> bool {
    t == TokV::LParen || t == TokV::Dot || t == TokV::Question
}

/// One postfix operator at token `q`, applied to `e`.
pub open spec fn post_one(ts: Seq<Token>, q: int, e: ExprV) -> ExParse
    decreases ts.len() - q, 32nat,
{
    if q < 0 || q >= ts.len() {
        ExParse::Failed(stream_end_err())
    } else {
        match tk(ts, q) {
            TokV::LParen => call_at(ts, q, e),
            TokV::Dot => match tk(ts, q + 1) {
                TokV::Ident(f) => ExParse::Parsed(
                    node(ExV::Field(Box::new(e), f), merge_spec(e.span, spn(ts, q + 1))),
                    q + 2,
                ),
                _ => exp_fail(ts, q + 1, "W11"@, "a field name after `.`"@),
            },
            _ => ExParse::Parsed(node(ExV::Propagate(Box::new(e)), merge_spec(e.span, spn(ts, q))), q + 1),
        }
    }
}

/// The postfix operators from token `q` on, applied to `e`.
pub open spec fn post_rest(ts: Seq<Token>, q: int, e: ExprV) -> ExParse
    decreases ts.len() - q, 33nat,
{
    if q < 0 || q >= ts.len() {
        ExParse::Failed(stream_end_err())
    } else if is_postfix_op(tk(ts, q)) {
        match post_one(ts, q, e) {
            ExParse::Failed(err) => ExParse::Failed(err),
            ExParse::Parsed(e2, q2) => if q2 <= q || q2 >= ts.len() {
                ExParse::Failed(stream_end_err())
            } else {
                post_rest(ts, q2, e2)
            },
        }
    } else {
        ExParse::Parsed(e, q)
    }
}

/// A call of `e` whose `(` is token `q`: the call and the position after
/// its `)`.
pub open spec fn call_at(ts: Seq<Token>, q: int, e: ExprV) -> ExParse
    decreases ts.len() - q, 31nat,
{
    if q < 0 || q >= ts.len() {
        ExParse::Failed(stream_end_err())
    } else if tk(ts, q + 1) == TokV::RParen {
        ExParse::Parsed(apply_call(e, seq![], merge_spec(e.span, spn(ts, q + 1))), q + 2)
    } else {
        call_args(ts, q + 1, seq![], e)
    }
}

/// The arguments of a call of `callee` from token `q` on, after `acc`.
pub open spec fn call_args(ts: Seq<Token>, q: int, acc: Seq<ExprV>, callee: ExprV) -> ExParse
    decreases ts.len() - q, 31nat,
{
    if q < 0 || q >= ts.len() {
        ExParse::Failed(stream_end_err())
    } else {
        match ex_at(ts, q, false) {
            ExParse::Failed(e) => ExParse::Failed(e),
            ExParse::Parsed(a, q2) => if q2 <= q || q2 >= ts.len() {
                ExParse::Failed(stream_end_err())
            } else if tk(ts, q2) == TokV::Comma {
                call_args(ts, q2 + 1, acc.push(a), callee)
            } else if tk(ts, q2) == TokV::RParen {
                ExParse::Parsed(apply_call(callee, acc.push(a), merge_spec(callee.span, spn(ts, q2))), q2 + 1)
            } else {
                exp_fail(ts, q2, "W19"@, "`)`"@)
            },
        }
    }
}

/// A one-token expression at `p`.
pub open spec fn one(kind: ExV, ts: Seq<Token>, p: int) -> ExParse {
    ExParse::Parsed(node(kind, spn(ts, p)), p + 1)
}

/// Whether `t` is a one-token expression: a literal, a hole or a variable.
pub open spec fn is_atom(t: TokV) -> bool {
    ||| t is Int
    ||| t is Float
    ||| t is Text
    ||| t is True
    ||| t is False
    ||| t is UnitLit
    ||| t is Hole
    ||| t is Ident
}

/// Parse a primary expression at `p`.
pub open spec fn primary_at(ts: Seq<Token>, p: int, ns: bool) -> ExParse
    decreases ts.len() - p, 17nat,
{
    if p < 0 || p >= ts.len() {
        ExParse::Failed(stream_end_err())
    } else {
        let start = spn(ts, p);
        match tk(ts, p) {
            TokV::Int(v) => one(ExV::Int(v), ts, p),
            TokV::Float(f) => one(ExV::Float(f), ts, p),
            TokV::Text(s) => one(ExV::Text(s), ts, p),
            TokV::True => one(ExV::Bool(true), ts, p),
            TokV::False => one(ExV::Bool(false), ts, p),
            TokV::UnitLit => one(ExV::Unit, ts, p),
            TokV::Hole(n) => one(ExV::Hole(n), ts, p),
            TokV::Ident(n) => one(ExV::Var(n), ts, p),
            TokV::Upper(n) => if tk(ts, p + 1) == TokV::LBrace && !ns {
                named_body(ts, p + 2, n, start)
            } else {
                one(ExV::Ctor(n, seq![]), ts, p)
            },
            TokV::If => if_at(ts, p + 1, ns, start),
            TokV::Match => match_at(ts, p + 1, start),
            TokV::LBracket => list_at(ts, p + 1, start),
            TokV::LBrace => brace_at(ts, p + 1, start),
            TokV::LParen => if la_scan(ts, p, 0) {
                lambda_at(ts, p + 1, ns, start)
            } else {
                match ex_at(ts, p + 1, false) {
                    ExParse::Failed(e) => ExParse::Failed(e),
                    ExParse::Parsed(v, q) => if q <= p + 1 || q >= ts.len() {
                        ExParse::Failed(stream_end_err())
                    } else if tk(ts, q) == TokV::RParen {
                        ExParse::Parsed(v, q + 1)
                    } else {
                        exp_fail(ts, q, "W25"@, "`)`"@)
                    },
                }
            },
            _ => ExParse::Failed(
                ErrV { rule: "W25"@, msg: "expected an expression, found "@ + describe_spec(tk(ts, p)), span: start },
            ),
        }
    }
}

/// `if` at token `p - 1`: condition, `then` branch, `else` branch.
pub open spec fn if_at(ts: Seq<Token>, p: int, ns: bool, start: Span) -> ExParse
    decreases ts.len() - p, 31nat,
{
    if p < 0 || p >= ts.len() {
        ExParse::Failed(stream_end_err())
    } else {
        match ex_at(ts, p, ns) {
            ExParse::Failed(e) => ExParse::Failed(e),
            ExParse::Parsed(c, q) => if q <= p || q >= ts.len() {
                ExParse::Failed(stream_end_err())
            } else if tk(ts, q) != TokV::Then {
                exp_fail(ts, q, "W22"@, "`then`"@)
            } else {
                match ex_at(ts, q + 1, ns) {
                    ExParse::Failed(e) => ExParse::Failed(e),
                    ExParse::Parsed(t, q2) => if q2 <= q + 1 || q2 >= ts.len() {
                        ExParse::Failed(stream_end_err())
                    } else if tk(ts, q2) != TokV::Else {
                        exp_fail(ts, q2, "W22"@, "`else` (the else branch is required)"@)
                    } else {
                        match ex_at(ts, q2 + 1, ns) {
                            ExParse::Failed(e) => ExParse::Failed(e),
                            ExParse::Parsed(e, q3) => ExParse::Parsed(
                                node(
                                    ExV::If(Box::new(c), Box::new(t), Box::new(e)),
                                    merge_spec(start, e.span),
                                ),
                                q3,
                            ),
                        }
                    },
                }
            },
        }
    }
}

/// `match` at token `p - 1`: the scrutinee (no `Name{` in it) and the arms.
pub open spec fn match_at(ts: Seq<Token>, p: int, start: Span) -> ExParse
    decreases ts.len() - p, 31nat,
{
    if p < 0 || p >= ts.len() {
        ExParse::Failed(stream_end_err())
    } else {
        match ex_at(ts, p, true) {
            ExParse::Failed(e) => ExParse::Failed(e),
            ExParse::Parsed(s, q) => if q <= p || q >= ts.len() {
                ExParse::Failed(stream_end_err())
            } else if tk(ts, q) != TokV::LBrace {
                exp_fail(ts, q, "W23"@, "`{` to open match arms"@)
            } else {
                arms_at(ts, q + 1, s, seq![], start)
            },
        }
    }
}

/// The closing `}` of match arms at token `q`.
pub open spec fn arms_close(ts: Seq<Token>, q: int, scr: ExprV, acc: Seq<(PatternV, ExprV)>, start: Span) -> ExParse {
    if tk(ts, q) != TokV::RBrace {
        exp_fail(ts, q, "W23"@, "`}` to close match arms"@)
    } else if acc.len() == 0 {
        ExParse::Failed(ErrV { rule: "W24"@, msg: "match must have at least one arm"@, span: start })
    } else {
        ExParse::Parsed(node(ExV::Match(Box::new(scr), acc), merge_spec(start, spn(ts, q))), q + 1)
    }
}

/// The match arms from token `q` on, after `acc`.
pub open spec fn arms_at(ts: Seq<Token>, q: int, scr: ExprV, acc: Seq<(PatternV, ExprV)>, start: Span) -> ExParse
    decreases ts.len() - q, 31nat,
{
    if q < 0 || q >= ts.len() {
        ExParse::Failed(stream_end_err())
    } else if tk(ts, q) == TokV::RBrace {
        arms_close(ts, q, scr, acc, start)
    } else {
        match pat_at(ts, q) {
            PatParse::Failed(e) => ExParse::Failed(e),
            PatParse::Parsed(pv, q1) => if q1 <= q || q1 >= ts.len() {
                ExParse::Failed(stream_end_err())
            } else if tk(ts, q1) != TokV::FatArrow {
                exp_fail(ts, q1, "W23"@, "`=>`"@)
            } else {
                match ex_at(ts, q1 + 1, false) {
                    ExParse::Failed(e) => ExParse::Failed(e),
                    ExParse::Parsed(b, q2) => if q2 <= q1 + 1 || q2 >= ts.len() {
                        ExParse::Failed(stream_end_err())
                    } else if tk(ts, q2) == TokV::Comma {
                        arms_at(ts, q2 + 1, scr, acc.push((pv, b)), start)
                    } else {
                        arms_close(ts, q2, scr, acc.push((pv, b)), start)
                    },
                }
            },
        }
    }
}

/// The closing `]` of a list at token `q`.
pub open spec fn list_close(ts: Seq<Token>, q: int, acc: Seq<ExprV>, start: Span) -> ExParse {
    if tk(ts, q) == TokV::RBracket {
        ExParse::Parsed(node(ExV::List(acc), merge_spec(start, spn(ts, q))), q + 1)
    } else {
        exp_fail(ts, q, "W6"@, "`]`"@)
    }
}

/// A list whose `[` is token `p - 1`.
pub open spec fn list_at(ts: Seq<Token>, p: int, start: Span) -> ExParse
    decreases ts.len() - p, 32nat,
{
    if p < 0 || p >= ts.len() {
        ExParse::Failed(stream_end_err())
    } else if tk(ts, p) == TokV::RBracket {
        ExParse::Parsed(node(ExV::List(seq![]), merge_spec(start, spn(ts, p))), p + 1)
    } else {
        elems_at(ts, p, seq![], start)
    }
}

/// The elements of a list from token `q` on, after `acc`.
pub open spec fn elems_at(ts: Seq<Token>, q: int, acc: Seq<ExprV>, start: Span) -> ExParse
    decreases ts.len() - q, 31nat,
{
    if q < 0 || q >= ts.len() {
        ExParse::Failed(stream_end_err())
    } else {
        match ex_at(ts, q, false) {
            ExParse::Failed(e) => ExParse::Failed(e),
            ExParse::Parsed(v, q2) => if q2 <= q || q2 >= ts.len() {
                ExParse::Failed(stream_end_err())
            } else if tk(ts, q2) == TokV::Comma {
                if tk(ts, q2 + 1) == TokV::RBracket {
                    list_close(ts, q2 + 1, acc.push(v), start)
                } else {
                    elems_at(ts, q2 + 1, acc.push(v), start)
                }
            } else {
                list_close(ts, q2, acc.push(v), start)
            },
        }
    }
}

/// The closing `}` of a record literal at token `q`.
pub open spec fn rec_close(
    ts: Seq<Token>,
    q: int,
    spread: Option<Box<ExprV>>,
    acc: Seq<(Seq<char>, ExprV)>,
    start: Span,
) -> ExParse {
    if tk(ts, q) == TokV::RBrace {
        ExParse::Parsed(node(ExV::Record(spread, acc), merge_spec(start, spn(ts, q))), q + 1)
    } else {
        exp_fail(ts, q, "W11"@, "`}`"@)
    }
}

/// At `{` (token `p - 1`): a record spread, a record literal, or a block.
pub open spec fn brace_at(ts: Seq<Token>, p: int, start: Span) -> ExParse
    decreases ts.len() - p, 33nat,
{
    if p < 0 || p >= ts.len() {
        ExParse::Failed(stream_end_err())
    } else if tk(ts, p) == TokV::DotDot {
        spread_at(ts, p, start)
    } else if tk(ts, p) == TokV::RBrace {
        rec_close(ts, p, None, seq![], start)
    } else if tk(ts, p) is Ident && tk(ts, p + 1) == TokV::Colon {
        rec_fields(ts, p, seq![], start)
    } else {
        block_at(ts, p, seq![], start)
    }
}

/// A record spread `{..base, f: e, ...}` whose `..` is token `p`.
pub open spec fn spread_at(ts: Seq<Token>, p: int, start: Span) -> ExParse
    decreases ts.len() - p, 32nat,
{
    if p < 0 || p >= ts.len() {
        ExParse::Failed(stream_end_err())
    } else {
        match ex_at(ts, p + 1, false) {
            ExParse::Failed(e) => ExParse::Failed(e),
            ExParse::Parsed(b, q) => if q <= p + 1 || q >= ts.len() {
                ExParse::Failed(stream_end_err())
            } else {
                spread_fields(ts, q, b, seq![], start)
            },
        }
    }
}

/// The fields after a record spread `{..base` from token `q` on.
pub open spec fn spread_fields(
    ts: Seq<Token>,
    q: int,
    base: ExprV,
    acc: Seq<(Seq<char>, ExprV)>,
    start: Span,
) -> ExParse
    decreases ts.len() - q, 32nat,
{
    if q < 0 || q >= ts.len() {
        ExParse::Failed(stream_end_err())
    } else if tk(ts, q) != TokV::Comma {
        rec_close(ts, q, Some(Box::new(base)), acc, start)
    } else if tk(ts, q + 1) == TokV::RBrace {
        rec_close(ts, q + 1, Some(Box::new(base)), acc, start)
    } else {
        match field_at(ts, q + 1, "W11"@) {
            FieldParse::Failed(e) => ExParse::Failed(e),
            FieldParse::Parsed(f, v, q2) => if q2 <= q + 1 || q2 >= ts.len() {
                ExParse::Failed(stream_end_err())
            } else {
                spread_fields(ts, q2, base, acc.push((f, v)), start)
            },
        }
    }
}

/// The fields of a record literal from token `q` on, after `acc`.
pub open spec fn rec_fields(ts: Seq<Token>, q: int, acc: Seq<(Seq<char>, ExprV)>, start: Span) -> ExParse
    decreases ts.len() - q, 32nat,
{
    if q < 0 || q >= ts.len() {
        ExParse::Failed(stream_end_err())
    } else {
        match field_at(ts, q, "W11"@) {
            FieldParse::Failed(e) => ExParse::Failed(e),
            FieldParse::Parsed(f, v, q2) => if q2 <= q || q2 >= ts.len() {
                ExParse::Failed(stream_end_err())
            } else if tk(ts, q2) == TokV::Comma {
                if tk(ts, q2 + 1) == TokV::RBrace {
                    rec_close(ts, q2 + 1, None, acc.push((f, v)), start)
                } else {
                    rec_fields(ts, q2 + 1, acc.push((f, v)), start)
                }
            } else {
                rec_close(ts, q2, None, acc.push((f, v)), start)
            },
        }
    }
}

/// A block's `let` statements and tail from token `q` on, after `lets`.
pub open spec fn block_at(ts: Seq<Token>, q: int, lets: Seq<(Seq<char>, ExprV)>, start: Span) -> ExParse
    decreases ts.len() - q, 31nat,
{
    if q < 0 || q >= ts.len() {
        ExParse::Failed(stream_end_err())
    } else if tk(ts, q) == TokV::Let {
        if tk(ts, q + 1) == TokV::Underscore {
            let_rest(ts, q + 2, "_"@, lets, start)
        } else {
            match tk(ts, q + 1) {
                TokV::Ident(n) => let_rest(ts, q + 2, n, lets, start),
                _ => exp_fail(ts, q + 1, "W21"@, "a name (or `_`) after `let`"@),
            }
        }
    } else {
        match ex_at(ts, q, false) {
            ExParse::Failed(e) => ExParse::Failed(e),
            ExParse::Parsed(t, q2) => if q2 <= q || q2 >= ts.len() {
                ExParse::Failed(stream_end_err())
            } else if tk(ts, q2) == TokV::RBrace {
                ExParse::Parsed(node(ExV::Block(lets, Box::new(t)), merge_spec(start, spn(ts, q2))), q2 + 1)
            } else {
                exp_fail(ts, q2, "W21"@, "`}` after the block's final expression"@)
            },
        }
    }
}

/// `= value;` of a `let` binding `name`, at token `q`.
pub open spec fn let_rest(ts: Seq<Token>, q: int, name: Seq<char>, lets: Seq<(Seq<char>, ExprV)>, start: Span) -> ExParse
    decreases ts.len() - q, 32nat,
{
    if q < 0 || q >= ts.len() {
        ExParse::Failed(stream_end_err())
    } else if tk(ts, q) != TokV::Assign {
        exp_fail(ts, q, "W21"@, "`=`"@)
    } else {
        match ex_at(ts, q + 1, false) {
            ExParse::Failed(e) => ExParse::Failed(e),
            ExParse::Parsed(v, q2) => if q2 <= q + 1 || q2 >= ts.len() {
                ExParse::Failed(stream_end_err())
            } else if tk(ts, q2) != TokV::Semi {
                exp_fail(ts, q2, "W21"@, "`;` after a let statement"@)
            } else {
                block_at(ts, q2 + 1, lets.push((name, v)), start)
            },
        }
    }
}

/// The closing `}` of a nominal record construction at token `q`.
pub open spec fn nclose(
    ts: Seq<Token>,
    q: int,
    n: Seq<char>,
    spread: Option<Box<ExprV>>,
    acc: Seq<(Seq<char>, ExprV)>,
    start: Span,
) -> ExParse {
    if tk(ts, q) == TokV::RBrace {
        ExParse::Parsed(node(ExV::NamedRec(n, spread, acc), merge_spec(start, spn(ts, q))), q + 1)
    } else {
        exp_fail(ts, q, "W42"@, "`}`"@)
    }
}

/// `Name{` at token `q - 2`: an optional spread, then the fields.
pub open spec fn named_body(ts: Seq<Token>, q: int, n: Seq<char>, start: Span) -> ExParse
    decreases ts.len() - q, 34nat,
{
    if q < 0 || q >= ts.len() {
        ExParse::Failed(stream_end_err())
    } else if tk(ts, q) == TokV::DotDot {
        match ex_at(ts, q + 1, false) {
            ExParse::Failed(e) => ExParse::Failed(e),
            ExParse::Parsed(b, q2) => if q2 <= q + 1 || q2 >= ts.len() {
                ExParse::Failed(stream_end_err())
            } else {
                nfields(ts, q2, n, Some(Box::new(b)), seq![], false, start)
            },
        }
    } else {
        nfields(ts, q, n, None, seq![], true, start)
    }
}

/// The fields of a nominal record construction from token `q` on; `first`
/// while no field or spread has been read.
pub open spec fn nfields(
    ts: Seq<Token>,
    q: int,
    n: Seq<char>,
    spread: Option<Box<ExprV>>,
    acc: Seq<(Seq<char>, ExprV)>,
    first: bool,
    start: Span,
) -> ExParse
    decreases ts.len() - q, 33nat,
{
    if q < 0 || q >= ts.len() {
        ExParse::Failed(stream_end_err())
    } else if tk(ts, q) == TokV::RBrace {
        nclose(ts, q, n, spread, acc, start)
    } else if !first && tk(ts, q) != TokV::Comma {
        nclose(ts, q, n, spread, acc, start)
    } else if !first && tk(ts, q + 1) == TokV::RBrace {
        nclose(ts, q + 1, n, spread, acc, start)
    } else {
        nfield_next(ts, if first { q } else { q + 1 }, n, spread, acc, start)
    }
}

/// The next field of a nominal record construction at token `q`, then the
/// rest.
pub open spec fn nfield_next(
    ts: Seq<Token>,
    q: int,
    n: Seq<char>,
    spread: Option<Box<ExprV>>,
    acc: Seq<(Seq<char>, ExprV)>,
    start: Span,
) -> ExParse
    decreases ts.len() - q, 32nat,
{
    if q < 0 || q >= ts.len() {
        ExParse::Failed(stream_end_err())
    } else {
        match field_at(ts, q, "W42"@) {
            FieldParse::Failed(e) => ExParse::Failed(e),
            FieldParse::Parsed(f, v, q2) => if q2 <= q || q2 >= ts.len() {
                ExParse::Failed(stream_end_err())
            } else {
                nfields(ts, q2, n, spread, acc.push((f, v)), false, start)
            },
        }
    }
}

/// A lambda whose `(` is token `q - 1`.
pub open spec fn lambda_at(ts: Seq<Token>, q: int, ns: bool, start: Span) -> ExParse
    decreases ts.len() - q, 34nat,
{
    if q < 0 || q >= ts.len() {
        ExParse::Failed(stream_end_err())
    } else if tk(ts, q) == TokV::RParen {
        lam_tail(ts, q, seq![], ns, start)
    } else {
        lam_params(ts, q, seq![], ns, start)
    }
}

/// The lambda parameters from token `q` on, after `acc`.
pub open spec fn lam_params(
    ts: Seq<Token>,
    q: int,
    acc: Seq<(Seq<char>, Option<TypeV>)>,
    ns: bool,
    start: Span,
) -> ExParse
    decreases ts.len() - q, 33nat,
{
    if q < 0 || q >= ts.len() {
        ExParse::Failed(stream_end_err())
    } else if tk(ts, q) == TokV::Underscore {
        lam_ty(ts, q + 1, "_"@, acc, ns, start)
    } else {
        match tk(ts, q) {
            TokV::Ident(n) => lam_ty(ts, q + 1, n, acc, ns, start),
            _ => exp_fail(ts, q, "W20"@, "a lambda parameter name"@),
        }
    }
}

/// The optional `: T` of lambda parameter `name` at token `q`, then `,` or
/// the end of the parameters.
pub open spec fn lam_ty(
    ts: Seq<Token>,
    q: int,
    name: Seq<char>,
    acc: Seq<(Seq<char>, Option<TypeV>)>,
    ns: bool,
    start: Span,
) -> ExParse
    decreases ts.len() - q, 33nat,
{
    if q < 0 || q >= ts.len() {
        ExParse::Failed(stream_end_err())
    } else if tk(ts, q) == TokV::Colon {
        match ty_at(ts, q + 1) {
            TyParse::Failed(e) => ExParse::Failed(e),
            TyParse::Parsed(t, q2) => if q2 <= q + 1 || q2 >= ts.len() {
                ExParse::Failed(stream_end_err())
            } else if tk(ts, q2) == TokV::Comma {
                lam_params(ts, q2 + 1, acc.push((name, Some(t))), ns, start)
            } else {
                lam_tail(ts, q2, acc.push((name, Some(t))), ns, start)
            },
        }
    } else if tk(ts, q) == TokV::Comma {
        lam_params(ts, q + 1, acc.push((name, None)), ns, start)
    } else {
        lam_tail(ts, q, acc.push((name, None)), ns, start)
    }
}

/// `) => body` of a lambda at token `q`.
pub open spec fn lam_tail(
    ts: Seq<Token>,
    q: int,
    params: Seq<(Seq<char>, Option<TypeV>)>,
    ns: bool,
    start: Span,
) -> ExParse
    decreases ts.len() - q, 31nat,
{
    if q < 0 || q >= ts.len() {
        ExParse::Failed(stream_end_err())
    } else if tk(ts, q) != TokV::RParen {
        exp_fail(ts, q, "W20"@, "`)`"@)
    } else if tk(ts, q + 1) != TokV::FatArrow {
        exp_fail(ts, q + 1, "W20"@, "`=>`"@)
    } else {
        match ex_at(ts, q + 2, ns) {
            ExParse::Failed(e) => ExParse::Failed(e),
            ExParse::Parsed(b, q3) => ExParse::Parsed(
                node(ExV::Lambda(params, Box::new(b)), merge_spec(start, b.span)),
                q3,
            ),
        }
    }
}

/// `r`, with the cursor at `pos` after it, is the field parse `s`.
pub open spec fn field_result(r: PResult<(String, Expr)>, pos: int, s: FieldParse) -> bool {
    match (r, s) {
        (Ok(fe), FieldParse::Parsed(f, v, q)) => fe.0@ == f && ex_view(fe.1) == v && pos == q,
        (Err(d), FieldParse::Failed(e)) => diag_as(d, e),
        _ => false,
    }
}

/// `r`, with the cursor at `pos` after it, is the parse `s`.
pub open spec fn ex_result(r: PResult<Expr>, pos: int, s: ExParse) -> bool {
    match (r, s) {
        (Ok(e), ExParse::Parsed(v, q)) => ex_view(e) == v && pos == q,
        (Err(d), ExParse::Failed(e)) => diag_as(d, e),
        _ => false,
    }
}

} // verus!
