//! What the parser yields for a whole program: the top-level forms as plain
//! values, and the grammar that reads them.
use vstd::prelude::*;
use crate::ast::{Def, Item, Param, Program, Test, TypeDecl, TypeDef, TypeExpr, VariantDef};
use crate::diag::{Span, merge_spec};
use crate::exprs::{ExParse, ExprV, ex_at, ex_view, exp_err, spn, tk};
use crate::lexer::{TokV, Token};
use crate::parser::{ErrV, PResult, TyParse, TypeV, describe_spec, diag_as, stream_end_err, te_view, tfields_view, ty_at};

verus! {

pub struct VariantV {
    pub name: Seq<char>,
    pub payload: Seq<TypeV>,
    pub span: Span,
}

pub enum DeclV {
    Alias(TypeV),
    Variants(Seq<VariantV>),
    Nominal(Seq<(Seq<char>, TypeV)>, ExprV),
}

pub struct TypeDefV {
    pub name: Seq<char>,
    pub decl: DeclV,
    pub span: Span,
}

pub struct ParamV {
    pub name: Seq<char>,
    pub ty: TypeV,
    pub contract: Option<ExprV>,
    pub span: Span,
}

pub struct DefV {
    pub name: Seq<char>,
    pub tparams: Seq<Seq<char>>,
    pub params: Option<Seq<ParamV>>,
    pub ty: TypeV,
    pub body: ExprV,
    pub span: Span,
}

pub struct TestV {
    pub name: Seq<char>,
    pub params: Seq<ParamV>,
    pub body: ExprV,
    pub span: Span,
}

pub enum ItemV {
    TypeDef(TypeDefV),
    Def(DefV),
    Test(TestV),
}

pub open spec fn tes_of(ts: Seq<TypeExpr>) -> Seq<TypeV> {
    ts.map_values(|t: TypeExpr| te_view(t))
}

pub open spec fn variant_view(v: VariantDef) -> VariantV {
    VariantV { name: v.name@, payload: tes_of(v.payload@), span: v.span }
}

pub open spec fn variants_view(vs: Seq<VariantDef>) -> Seq<VariantV> {
    vs.map_values(|v: VariantDef| variant_view(v))
}

pub open spec fn decl_view(d: TypeDecl) -> DeclV {
    match d {
        TypeDecl::Alias(t) => DeclV::Alias(te_view(t)),
        TypeDecl::Variants(vs) => DeclV::Variants(variants_view(vs@)),
        TypeDecl::Nominal { fields, invariant: inv } => DeclV::Nominal(tfields_view(fields@), ex_view(inv)),
    }
}

pub open spec fn typedef_view(t: TypeDef) -> TypeDefV {
    TypeDefV { name: t.name@, decl: decl_view(t.decl), span: t.span }
}

pub open spec fn param_view(p: Param) -> ParamV {
    ParamV {
        name: p.name@,
        ty: te_view(p.ty),
        contract: match p.contract {
            Some(c) => Some(ex_view(c)),
            None => None,
        },
        span: p.span,
    }
}

pub open spec fn params_view(ps: Seq<Param>) -> Seq<ParamV> {
    ps.map_values(|p: Param| param_view(p))
}

pub open spec fn names_of(ns: Seq<String>) -> Seq<Seq<char>> {
    ns.map_values(|n: String| n@)
}

pub open spec fn def_view(d: Def) -> DefV {
    DefV {
        name: d.name@,
        tparams: names_of(d.tparams@),
        params: match d.params {
            Some(ps) => Some(params_view(ps@)),
            None => None,
        },
        ty: te_view(d.ty),
        body: ex_view(d.body),
        span: d.span,
    }
}

pub open spec fn test_view(t: Test) -> TestV {
    TestV { name: t.name@, params: params_view(t.params@), body: ex_view(t.body), span: t.span }
}

pub open spec fn item_view(i: Item) -> ItemV {
    match i {
        Item::TypeDef(t) => ItemV::TypeDef(typedef_view(t)),
        Item::Def(d) => ItemV::Def(def_view(d)),
        Item::Test(t) => ItemV::Test(test_view(t)),
    }
}

pub open spec fn items_view(is: Seq<Item>) -> Seq<ItemV> {
    is.map_values(|i: Item| item_view(i))
}

/// What parsing a form from a position gives: its content and the position
/// after it, or the error.
pub enum Parse<T> {
    Parsed(T, int),
    Failed(ErrV),
}

pub open spec fn fail<T>(e: ErrV) -> Parse<T> {
    Parse::Failed(e)
}

// ---------- type definitions ----------

/// A `type` definition whose `type` keyword is token `p`.
#[verifier::opaque]
pub open spec fn typedef_at(ts: Seq<Token>, p: int, ns: bool) -> Parse<TypeDefV> {
    let start = spn(ts, p);
    match tk(ts, p + 1) {
        TokV::Upper(n) => if tk(ts, p + 2) != TokV::Assign {
            fail(exp_err(ts, p + 2, "W11"@, "`=`"@))
        } else {
            let q = p + 3;
            if tk(ts, q) == TokV::LBrace {
                match ty_at(ts, q) {
                    TyParse::Failed(e) => fail(e),
                    TyParse::Parsed(rec, q2) => if tk(ts, q2) == TokV::Where {
                        match ex_at(ts, q2 + 1, ns) {
                            ExParse::Failed(e) => fail(e),
                            ExParse::Parsed(inv, q3) => Parse::Parsed(
                                TypeDefV {
                                    name: n,
                                    decl: DeclV::Nominal(
                                        match rec {
                                            TypeV::Record(fs, _) => fs,
                                            _ => seq![],
                                        },
                                        inv,
                                    ),
                                    span: merge_spec(start, spn(ts, q3 - 1)),
                                },
                                q3,
                            ),
                        }
                    } else {
                        Parse::Parsed(
                            TypeDefV { name: n, decl: DeclV::Alias(rec), span: merge_spec(start, spn(ts, q2 - 1)) },
                            q2,
                        )
                    },
                }
            } else if tk(ts, q) is Upper && tk(ts, q + 1) != TokV::LBracket {
                variants_at(ts, q, seq![], n, start)
            } else {
                match ty_at(ts, q) {
                    TyParse::Failed(e) => fail(e),
                    TyParse::Parsed(t, q2) => Parse::Parsed(
                        TypeDefV { name: n, decl: DeclV::Alias(t), span: merge_spec(start, spn(ts, q2 - 1)) },
                        q2,
                    ),
                }
            }
        },
        _ => fail(exp_err(ts, p + 1, "W5"@, "a type name (CamelCase)"@)),
    }
}

/// The variants of type `n` from token `q` on, after `acc`.
pub open spec fn variants_at(ts: Seq<Token>, q: int, acc: Seq<VariantV>, n: Seq<char>, start: Span) -> Parse<
    TypeDefV,
>
    decreases ts.len() - q,
{
    if q < 0 || q >= ts.len() {
        fail(stream_end_err())
    } else {
        match variant_at(ts, q) {
            Parse::Failed(e) => fail(e),
            Parse::Parsed(v, q2) => if q2 <= q || q2 >= ts.len() {
                fail(stream_end_err())
            } else if tk(ts, q2) == TokV::Pipe {
                variants_at(ts, q2 + 1, acc.push(v), n, start)
            } else {
                Parse::Parsed(
                    TypeDefV { name: n, decl: DeclV::Variants(acc.push(v)), span: merge_spec(start, spn(ts, q2 - 1)) },
                    q2,
                )
            },
        }
    }
}

/// One variant `Name` or `Name(T, ...)` at token `q`.
#[verifier::opaque]
pub open spec fn variant_at(ts: Seq<Token>, q: int) -> Parse<VariantV> {
    match tk(ts, q) {
        TokV::Upper(vn) => if tk(ts, q + 1) == TokV::LParen {
            payload_at(ts, q + 2, seq![], vn, spn(ts, q))
        } else {
            Parse::Parsed(VariantV { name: vn, payload: seq![], span: spn(ts, q) }, q + 1)
        },
        _ => fail(exp_err(ts, q, "W12"@, "a variant name"@)),
    }
}

/// The payload types of variant `vn` from token `q` on, after `pacc`.
pub open spec fn payload_at(ts: Seq<Token>, q: int, pacc: Seq<TypeV>, vn: Seq<char>, vstart: Span) -> Parse<VariantV>
    decreases ts.len() - q,
{
    if q < 0 || q >= ts.len() {
        fail(stream_end_err())
    } else {
        match ty_at(ts, q) {
            TyParse::Failed(e) => fail(e),
            TyParse::Parsed(t, q2) => if q2 <= q || q2 >= ts.len() {
                fail(stream_end_err())
            } else if tk(ts, q2) == TokV::Comma {
                payload_at(ts, q2 + 1, pacc.push(t), vn, vstart)
            } else if tk(ts, q2) == TokV::RParen {
                Parse::Parsed(VariantV { name: vn, payload: pacc.push(t), span: merge_spec(vstart, spn(ts, q2)) }, q2 + 1)
            } else {
                fail(exp_err(ts, q2, "W12"@, "`)`"@))
            },
        }
    }
}

// ---------- parameters, defs, tests ----------

/// A parameter `name: T` with an optional `where` contract, at token `q`.
#[verifier::opaque]
pub open spec fn param_at(ts: Seq<Token>, q: int, ns: bool) -> Parse<ParamV> {
    let start = spn(ts, q);
    match tk(ts, q) {
        TokV::Ident(n) => if tk(ts, q + 1) != TokV::Colon {
            fail(exp_err(ts, q + 1, "W18"@, "`:` and a parameter type"@))
        } else {
            match ty_at(ts, q + 2) {
                TyParse::Failed(e) => fail(e),
                TyParse::Parsed(t, q2) => if tk(ts, q2) == TokV::Where {
                    match ex_at(ts, q2 + 1, ns) {
                        ExParse::Failed(e) => fail(e),
                        ExParse::Parsed(c, q3) => Parse::Parsed(
                            ParamV { name: n, ty: t, contract: Some(c), span: merge_spec(start, spn(ts, q3 - 1)) },
                            q3,
                        ),
                    }
                } else {
                    Parse::Parsed(ParamV { name: n, ty: t, contract: None, span: merge_spec(start, spn(ts, q2 - 1)) }, q2)
                },
            }
        },
        _ => fail(exp_err(ts, q, "W16"@, "a parameter name"@)),
    }
}

/// A `def` whose `def` keyword is token `p`.
#[verifier::opaque]
pub open spec fn def_at(ts: Seq<Token>, p: int, ns: bool) -> Parse<DefV> {
    let start = spn(ts, p);
    match tk(ts, p + 1) {
        TokV::Ident(n) => if tk(ts, p + 2) == TokV::LBracket {
            tparams_at(ts, p + 3, seq![], n, start, ns)
        } else {
            def_rest(ts, p + 2, n, seq![], start, ns)
        },
        _ => fail(exp_err(ts, p + 1, "W16"@, "a definition name (snake_case)"@)),
    }
}

/// The type parameters of def `n` from token `q` on, after `acc`.
pub open spec fn tparams_at(ts: Seq<Token>, q: int, acc: Seq<Seq<char>>, n: Seq<char>, start: Span, ns: bool) -> Parse<
    DefV,
>
    decreases ts.len() - q,
{
    if q < 0 || q >= ts.len() {
        fail(stream_end_err())
    } else {
        match tk(ts, q) {
            TokV::Upper(t) => if tk(ts, q + 1) == TokV::Comma {
                tparams_at(ts, q + 2, acc.push(t), n, start, ns)
            } else if tk(ts, q + 1) == TokV::RBracket {
                def_rest(ts, q + 2, n, acc.push(t), start, ns)
            } else {
                fail(exp_err(ts, q + 1, "W13"@, "`]`"@))
            },
            _ => fail(exp_err(ts, q, "W13"@, "a type parameter"@)),
        }
    }
}

/// The rest of def `n` after its type parameters `tps`, at token `q`: a
/// constant's `: T = e`, or a function's parameters and signature.
#[verifier::opaque]
pub open spec fn def_rest(ts: Seq<Token>, q: int, n: Seq<char>, tps: Seq<Seq<char>>, start: Span, ns: bool) -> Parse<
    DefV,
> {
    if tk(ts, q) == TokV::Colon {
        if tps.len() > 0 {
            fail(ErrV { rule: "W16"@, msg: "constants cannot have type parameters"@, span: start })
        } else {
            match ty_at(ts, q + 1) {
                TyParse::Failed(e) => fail(e),
                TyParse::Parsed(t, q2) => if tk(ts, q2) != TokV::Assign {
                    fail(exp_err(ts, q2, "W16"@, "`=`"@))
                } else {
                    match ex_at(ts, q2 + 1, ns) {
                        ExParse::Failed(e) => fail(e),
                        ExParse::Parsed(b, q3) => Parse::Parsed(
                            DefV {
                                name: n,
                                tparams: tps,
                                params: None,
                                ty: t,
                                body: b,
                                span: merge_spec(start, spn(ts, q3 - 1)),
                            },
                            q3,
                        ),
                    }
                },
            }
        }
    } else if tk(ts, q) != TokV::LParen {
        fail(exp_err(ts, q, "W16"@, "`(` or `:` after the definition name"@))
    } else if tk(ts, q + 1) == TokV::RParen {
        def_sig(ts, q + 1, n, tps, seq![], start, ns)
    } else {
        params_at(ts, q + 1, seq![], n, tps, start, ns)
    }
}

/// The parameters of def `n` from token `q` on, after `acc`.
pub open spec fn params_at(
    ts: Seq<Token>,
    q: int,
    acc: Seq<ParamV>,
    n: Seq<char>,
    tps: Seq<Seq<char>>,
    start: Span,
    ns: bool,
) -> Parse<DefV>
    decreases ts.len() - q,
{
    if q < 0 || q >= ts.len() {
        fail(stream_end_err())
    } else {
        match param_at(ts, q, ns) {
            Parse::Failed(e) => fail(e),
            Parse::Parsed(pv, q2) => if q2 <= q || q2 >= ts.len() {
                fail(stream_end_err())
            } else if tk(ts, q2) == TokV::Comma {
                params_at(ts, q2 + 1, acc.push(pv), n, tps, start, ns)
            } else {
                def_sig(ts, q2, n, tps, acc.push(pv), start, ns)
            },
        }
    }
}

/// `) -> R = body` of def `n`, at token `q`.
#[verifier::opaque]
pub open spec fn def_sig(
    ts: Seq<Token>,
    q: int,
    n: Seq<char>,
    tps: Seq<Seq<char>>,
    params: Seq<ParamV>,
    start: Span,
    ns: bool,
) -> Parse<DefV> {
    if tk(ts, q) != TokV::RParen {
        fail(exp_err(ts, q, "W16"@, "`)`"@))
    } else if tk(ts, q + 1) != TokV::Arrow {
        fail(exp_err(ts, q + 1, "W18"@, "`->` and a return type"@))
    } else {
        match ty_at(ts, q + 2) {
            TyParse::Failed(e) => fail(e),
            TyParse::Parsed(t, q2) => if tk(ts, q2) != TokV::Assign {
                fail(exp_err(ts, q2, "W16"@, "`=`"@))
            } else {
                match ex_at(ts, q2 + 1, ns) {
                    ExParse::Failed(e) => fail(e),
                    ExParse::Parsed(b, q3) => Parse::Parsed(
                        DefV {
                            name: n,
                            tparams: tps,
                            params: Some(params),
                            ty: t,
                            body: b,
                            span: merge_spec(start, spn(ts, q3 - 1)),
                        },
                        q3,
                    ),
                }
            },
        }
    }
}

/// A `test` whose `test` keyword is token `p`.
#[verifier::opaque]
pub open spec fn test_at(ts: Seq<Token>, p: int, ns: bool) -> Parse<TestV> {
    let start = spn(ts, p);
    match tk(ts, p + 1) {
        TokV::Text(name) => if tk(ts, p + 2) == TokV::LParen {
            test_params(ts, p + 3, seq![], name, start, ns)
        } else {
            test_tail(ts, p + 2, name, seq![], start, ns)
        },
        _ => fail(
            ErrV {
                rule: "W34"@,
                msg: "expected a test name in quotes, found "@ + describe_spec(tk(ts, p + 1)),
                span: spn(ts, p + 1),
            },
        ),
    }
}

/// The parameters of test `name` from token `q` on, after `acc`.
pub open spec fn test_params(
    ts: Seq<Token>,
    q: int,
    acc: Seq<ParamV>,
    name: Seq<char>,
    start: Span,
    ns: bool,
) -> Parse<TestV>
    decreases ts.len() - q,
{
    if q < 0 || q >= ts.len() {
        fail(stream_end_err())
    } else {
        match param_at(ts, q, ns) {
            Parse::Failed(e) => fail(e),
            Parse::Parsed(pv, q2) => if q2 <= q || q2 >= ts.len() {
                fail(stream_end_err())
            } else if tk(ts, q2) == TokV::Comma {
                test_params(ts, q2 + 1, acc.push(pv), name, start, ns)
            } else if tk(ts, q2) == TokV::RParen {
                test_tail(ts, q2 + 1, name, acc.push(pv), start, ns)
            } else {
                fail(exp_err(ts, q2, "W35"@, "`)`"@))
            },
        }
    }
}

/// `= body` of test `name`, at token `q`.
#[verifier::opaque]
pub open spec fn test_tail(ts: Seq<Token>, q: int, name: Seq<char>, params: Seq<ParamV>, start: Span, ns: bool) -> Parse<
    TestV,
> {
    if tk(ts, q) != TokV::Assign {
        fail(exp_err(ts, q, "W34"@, "`=`"@))
    } else {
        match ex_at(ts, q + 1, ns) {
            ExParse::Failed(e) => fail(e),
            ExParse::Parsed(b, q2) => Parse::Parsed(
                TestV { name, params, body: b, span: merge_spec(start, spn(ts, q2 - 1)) },
                q2,
            ),
        }
    }
}

// ---------- programs ----------

/// The top-level forms from token `p` on, after `acc`, up to `Eof`.
pub open spec fn prog_at(ts: Seq<Token>, p: int, ns: bool, acc: Seq<ItemV>) -> Parse<Seq<ItemV>>
    decreases ts.len() - p,
{
    if p < 0 || p >= ts.len() {
        fail(stream_end_err())
    } else {
        match tk(ts, p) {
            TokV::Eof => Parse::Parsed(acc, p),
            TokV::Type => match typedef_at(ts, p, ns) {
                Parse::Failed(e) => fail(e),
                Parse::Parsed(t, q) => if q <= p || q >= ts.len() {
                    fail(stream_end_err())
                } else {
                    prog_at(ts, q, ns, acc.push(ItemV::TypeDef(t)))
                },
            },
            TokV::Def => match def_at(ts, p, ns) {
                Parse::Failed(e) => fail(e),
                Parse::Parsed(d, q) => if q <= p || q >= ts.len() {
                    fail(stream_end_err())
                } else {
                    prog_at(ts, q, ns, acc.push(ItemV::Def(d)))
                },
            },
            TokV::Test => match test_at(ts, p, ns) {
                Parse::Failed(e) => fail(e),
                Parse::Parsed(t, q) => if q <= p || q >= ts.len() {
                    fail(stream_end_err())
                } else {
                    prog_at(ts, q, ns, acc.push(ItemV::Test(t)))
                },
            },
            _ => fail(
                ErrV {
                    rule: "W7"@,
                    msg: "expected a top-level form (`type`, `def`, or `test`), found "@ + describe_spec(tk(ts, p)),
                    span: spn(ts, p),
                },
            ),
        }
    }
}

/// The program that the token stream `ts` spells, or the first error.
pub open spec fn program_of(ts: Seq<Token>, ns: bool) -> Parse<Seq<ItemV>> {
    prog_at(ts, 0, ns, seq![])
}

/// `d` is the error `e`.
pub open spec fn failed_as<A, T>(r: PResult<A>, s: Parse<T>) -> bool {
    match (r, s) {
        (Err(d), Parse::Failed(e)) => diag_as(d, e),
        _ => false,
    }
}

/// `r`, with the cursor at `pos` after it, is the parse `s`.
pub open spec fn typedef_result(r: PResult<TypeDef>, pos: int, s: Parse<TypeDefV>) -> bool {
    match (r, s) {
        (Ok(t), Parse::Parsed(v, q)) => typedef_view(t) == v && pos == q,
        _ => failed_as(r, s),
    }
}

pub open spec fn variant_result(r: PResult<VariantDef>, pos: int, s: Parse<VariantV>) -> bool {
    match (r, s) {
        (Ok(t), Parse::Parsed(v, q)) => variant_view(t) == v && pos == q,
        _ => failed_as(r, s),
    }
}

pub open spec fn param_result(r: PResult<Param>, pos: int, s: Parse<ParamV>) -> bool {
    match (r, s) {
        (Ok(t), Parse::Parsed(v, q)) => param_view(t) == v && pos == q,
        _ => failed_as(r, s),
    }
}

pub open spec fn def_result(r: PResult<Def>, pos: int, s: Parse<DefV>) -> bool {
    match (r, s) {
        (Ok(t), Parse::Parsed(v, q)) => def_view(t) == v && pos == q,
        _ => failed_as(r, s),
    }
}

pub open spec fn test_result(r: PResult<Test>, pos: int, s: Parse<TestV>) -> bool {
    match (r, s) {
        (Ok(t), Parse::Parsed(v, q)) => test_view(t) == v && pos == q,
        _ => failed_as(r, s),
    }
}

pub open spec fn program_result(r: PResult<Program>, pos: int, s: Parse<Seq<ItemV>>) -> bool {
    match (r, s) {
        (Ok(p), Parse::Parsed(v, q)) => items_view(p.items@) == v && pos == q,
        _ => failed_as(r, s),
    }
}

} // verus!
