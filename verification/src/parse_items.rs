//! Parsing the top-level forms of a program: type definitions, defs and
//! tests.
use vstd::prelude::*;
use crate::ast::{Def, Item, Param, Program, Test, TypeDecl, TypeDef, TypeExpr, VariantDef};
use crate::diag::{Diag, Span, lemma_merge_algebra, merge_spec};
use crate::exprs::{exp_err, spn};
use crate::items::{
    DeclV, DefV, ItemV, Parse, ParamV, TestV, TypeDefV, VariantV, def_at, def_rest, def_result, def_sig, fail,
    item_view, items_view, names_of, param_at, param_result, param_view, params_at, params_view, payload_at, prog_at,
    program_result, tes_of, test_at, test_params, test_result, test_tail, tparams_at, typedef_at, typedef_result,
    variant_at, variant_result, variant_view, variants_at, variants_view,
};
use crate::lexer::{Tok, TokV};
use crate::parser::{PResult, Parser, TypeV, describe, te_view, tfields_view};
use crate::text::{cat3, owned};

verus! {

impl Parser {
    /// Parse a whole program: `type`, `def` and `test` forms up to `Eof`.
    pub fn parse_program(&mut self) -> (r: PResult<Program>)
        requires
            old(self).wf(),
        ensures
            final(self).step(old(self)),
            r is Ok ==> final(self).cur() is Eof,
            r is Err ==> crate::diag::cites_rule(r->Err_0),
            program_result(r, final(self).pos as int, prog_at(old(self).toks@, old(self).pos as int, old(self).no_struct, seq![])),
    {
        let ghost ts = self.toks@;
        let ghost p0 = self.pos as int;
        let ghost ns = self.no_struct;
        let mut items: Vec<Item> = Vec::new();
        proof {
            reveal_strlit("");
            assert(items_view(items@) =~= Seq::<ItemV>::empty());
        }
        loop
            invariant
                self.step(old(self)),
                ts == self.toks@,
                p0 == old(self).pos,
                ns == old(self).no_struct,
                prog_at(ts, p0, ns, seq![]) == prog_at(ts, self.pos as int, ns, items_view(items@)),
            ensures
                self.step(old(self)),
                self.cur() is Eof,
                prog_at(ts, p0, ns, seq![]) == prog_at(ts, self.pos as int, ns, items_view(items@)),
            decreases self.toks@.len() - self.pos,
        {
            let item = match self.peek() {
                Tok::Eof => break,
                Tok::Type => Item::TypeDef(self.parse_typedef()?),
                Tok::Def => Item::Def(self.parse_def()?),
                Tok::Test => Item::Test(self.parse_test()?),
                _ => {
                    let d = self.peek_describe();
                    proof {
                        reveal_strlit("");
                    }
                    return Err(Diag::new(
                        "W7",
                        cat3("expected a top-level form (`type`, `def`, or `test`), found ", d.as_str(), ""),
                        self.span(),
                    ));
                },
            };
            proof {
                assert(items_view(items@.push(item)) =~= items_view(items@).push(item_view(item)));
            }
            items.push(item);
        }
        Ok(Program { items })
    }

    // ---- type definitions ----

    fn parse_typedef(&mut self) -> (r: PResult<TypeDef>)
        requires
            old(self).wf(),
            old(self).cur() is Type,
        ensures
            final(self).step(old(self)),
            r is Ok ==> final(self).pos > old(self).pos,
            r is Err ==> crate::diag::cites_rule(r->Err_0),
            typedef_result(r, final(self).pos as int, typedef_at(old(self).toks@, old(self).pos as int, old(self).no_struct)),
    {
        proof {
            reveal(typedef_at);
        }
        let ghost ts = self.toks@;
        proof {
            assert(ts.last() == ts[ts.len() - 1]);
        }
        let start = self.span();
        let _ = self.bump();
        let name = self.expect_upper("a type name (CamelCase)", "W5")?;
        let _ = self.expect(Tok::Assign, "`=`", "W11")?;
        // Variants iff the right side is a name not followed by `[`.
        let is_variants = match self.peek() {
            Tok::Upper(_) => match self.peek_at(1) {
                Tok::LBracket => false,
                _ => true,
            },
            _ => false,
        };
        // nominal record with invariant: `type N = { ... } where expr`
        if self.peek_is(&Tok::LBrace) {
            let rec = self.parse_type()?;
            if self.eat(&Tok::Where) {
                let inv = self.parse_expr()?;
                let fields = match rec {
                    TypeExpr::Record(fs, _) => fs,
                    _ => Vec::new(),
                };
                proof {
                    assert(tfields_view(Seq::<(String, TypeExpr)>::empty()) =~= Seq::<(Seq<char>, TypeV)>::empty());
                }
                let span = start.merge(self.prev_span());
                return Ok(TypeDef { name, decl: TypeDecl::Nominal { fields, invariant: inv }, span });
            }
            let span = start.merge(self.prev_span());
            return Ok(TypeDef { name, decl: TypeDecl::Alias(rec), span });
        }
        if is_variants {
            self.parse_variants(name, start)
        } else {
            let ty = self.parse_type()?;
            let span = start.merge(self.prev_span());
            Ok(TypeDef { name, decl: TypeDecl::Alias(ty), span })
        }
    }

    /// The variants `A | B(T, ...) | ...` of type `name`.
    fn parse_variants(&mut self, name: String, start: Span) -> (r: PResult<TypeDef>)
        requires
            old(self).wf(),
        ensures
            final(self).step(old(self)),
            r is Ok ==> final(self).pos > old(self).pos,
            r is Err ==> crate::diag::cites_rule(r->Err_0),
            typedef_result(r, final(self).pos as int, variants_at(old(self).toks@, old(self).pos as int, seq![], name@, start)),
    {
        let ghost ts = self.toks@;
        let ghost p0 = self.pos as int;
        let mut variants: Vec<VariantDef> = Vec::new();
        proof {
            assert(variants_view(variants@) =~= Seq::<VariantV>::empty());
        }
        loop
            invariant_except_break
                variants_at(ts, p0, seq![], name@, start) == variants_at(
                    ts,
                    self.pos as int,
                    variants_view(variants@),
                    name@,
                    start,
                ),
            invariant
                self.step(old(self)),
                self.pos >= old(self).pos,
                ts == self.toks@,
                p0 == old(self).pos,
            ensures
                self.step(old(self)),
                self.pos > old(self).pos,
                variants_at(ts, p0, seq![], name@, start) == Parse::Parsed(
                    TypeDefV {
                        name: name@,
                        decl: DeclV::Variants(variants_view(variants@)),
                        span: merge_spec(start, spn(ts, self.pos - 1)),
                    },
                    self.pos as int,
                ),
            decreases self.toks@.len() - self.pos,
        {
            let v = self.parse_variant()?;
            proof {
                assert(variants_view(variants@.push(v)) =~= variants_view(variants@).push(variant_view(v)));
            }
            variants.push(v);
            if !self.eat(&Tok::Pipe) {
                break;
            }
        }
        let span = start.merge(self.prev_span());
        Ok(TypeDef { name, decl: TypeDecl::Variants(variants), span })
    }

    /// One variant `Name` or `Name(T, ...)`.
    fn parse_variant(&mut self) -> (r: PResult<VariantDef>)
        requires
            old(self).wf(),
        ensures
            final(self).step(old(self)),
            r is Ok ==> final(self).pos > old(self).pos,
            r is Err ==> crate::diag::cites_rule(r->Err_0),
            variant_result(r, final(self).pos as int, variant_at(old(self).toks@, old(self).pos as int)),
    {
        proof {
            reveal(variant_at);
        }
        let ghost ts = self.toks@;
        proof {
            assert(ts.last() == ts[ts.len() - 1]);
        }
        let vstart = self.span();
        let vname = self.expect_upper("a variant name", "W12")?;
        let mut payload: Vec<TypeExpr> = Vec::new();
        proof {
            assert(tes_of(payload@) =~= Seq::<TypeV>::empty());
        }
        if self.eat(&Tok::LParen) {
            loop
                invariant_except_break
                    variant_at(ts, old(self).pos as int) == payload_at(ts, self.pos as int, tes_of(payload@), vname@, vstart),
                invariant
                    self.step(old(self)),
                    self.pos > old(self).pos,
                    ts == self.toks@,
                ensures
                    self.step(old(self)),
                    self.pos > old(self).pos,
                    ts == self.toks@,
                    self.cur() == TokV::RParen ==> variant_at(ts, old(self).pos as int) == Parse::Parsed(
                        VariantV {
                            name: vname@,
                            payload: tes_of(payload@),
                            span: merge_spec(vstart, spn(ts, self.pos as int)),
                        },
                        self.pos + 1,
                    ),
                    self.cur() != TokV::RParen ==> variant_at(ts, old(self).pos as int) == fail::<VariantV>(
                        exp_err(ts, self.pos as int, "W12"@, "`)`"@),
                    ),
                decreases self.toks@.len() - self.pos,
            {
                let t = self.parse_type()?;
                proof {
                    assert(tes_of(payload@.push(t)) =~= tes_of(payload@).push(te_view(t)));
                }
                payload.push(t);
                if !self.eat(&Tok::Comma) {
                    break;
                }
            }
            let _ = self.expect(Tok::RParen, "`)`", "W12")?;
        } else {
            proof {
                lemma_merge_algebra(vstart, vstart, vstart);
            }
        }
        Ok(VariantDef { name: vname, payload, span: vstart.merge(self.prev_span()) })
    }

    // ---- defs ----

    fn parse_def(&mut self) -> (r: PResult<Def>)
        requires
            old(self).wf(),
            old(self).cur() is Def,
        ensures
            final(self).step(old(self)),
            r is Ok ==> final(self).pos > old(self).pos,
            r is Err ==> crate::diag::cites_rule(r->Err_0),
            def_result(r, final(self).pos as int, def_at(old(self).toks@, old(self).pos as int, old(self).no_struct)),
    {
        proof {
            reveal(def_at);
        }
        let ghost ts = self.toks@;
        let ghost p0 = self.pos as int;
        let ghost ns = self.no_struct;
        proof {
            assert(ts.last() == ts[ts.len() - 1]);
        }
        let start = self.span();
        let _ = self.bump();
        let name = self.expect_ident("a definition name (snake_case)", "W16")?;
        let mut tparams: Vec<String> = Vec::new();
        proof {
            assert(names_of(tparams@) =~= Seq::<Seq<char>>::empty());
        }
        if self.eat(&Tok::LBracket) {
            loop
                invariant_except_break
                    def_at(ts, p0, ns) == tparams_at(ts, self.pos as int, names_of(tparams@), name@, start, ns),
                invariant
                    self.step(old(self)),
                    self.pos > old(self).pos,
                    ts == self.toks@,
                    p0 == old(self).pos,
                    ns == old(self).no_struct,
                ensures
                    self.step(old(self)),
                    self.pos > old(self).pos,
                    self.cur() == TokV::RBracket ==> def_at(ts, p0, ns) == def_rest(
                        ts,
                        self.pos + 1,
                        name@,
                        names_of(tparams@),
                        start,
                        ns,
                    ),
                    self.cur() != TokV::RBracket ==> def_at(ts, p0, ns) == fail::<DefV>(
                        exp_err(ts, self.pos as int, "W13"@, "`]`"@),
                    ),
                decreases self.toks@.len() - self.pos,
            {
                let tp = self.expect_upper("a type parameter", "W13")?;
                proof {
                    assert(names_of(tparams@.push(tp)) =~= names_of(tparams@).push(tp@));
                }
                tparams.push(tp);
                if !self.eat(&Tok::Comma) {
                    break;
                }
            }
            let _ = self.expect(Tok::RBracket, "`]`", "W13")?;
        }
        self.parse_def_rest(name, tparams, start)
    }

    /// After a def's name and type parameters: a constant's `: T = e`, or a
    /// function's parameters, return type and body.
    fn parse_def_rest(&mut self, name: String, tparams: Vec<String>, start: Span) -> (r: PResult<Def>)
        requires
            old(self).wf(),
        ensures
            final(self).step(old(self)),
            r is Ok ==> final(self).pos > old(self).pos,
            r is Err ==> crate::diag::cites_rule(r->Err_0),
            def_result(
                r,
                final(self).pos as int,
                def_rest(old(self).toks@, old(self).pos as int, name@, names_of(tparams@), start, old(self).no_struct),
            ),
    {
        if self.peek_is(&Tok::Colon) {
            self.parse_const(name, tparams, start)
        } else {
            self.parse_fn_rest(name, tparams, start)
        }
    }

    /// A constant's `: T = e`, at the `:`.
    fn parse_const(&mut self, name: String, tparams: Vec<String>, start: Span) -> (r: PResult<Def>)
        requires
            old(self).wf(),
            old(self).cur() is Colon,
        ensures
            final(self).step(old(self)),
            r is Ok ==> final(self).pos > old(self).pos,
            r is Err ==> crate::diag::cites_rule(r->Err_0),
            def_result(
                r,
                final(self).pos as int,
                def_rest(old(self).toks@, old(self).pos as int, name@, names_of(tparams@), start, old(self).no_struct),
            ),
    {
        let ghost ts = self.toks@;
        proof {
            reveal(def_rest);
            assert(ts.last() == ts[ts.len() - 1]);
        }
        let _ = self.bump();
        // constant: `def name: T = expr`
        if tparams.len() > 0 {
            return Err(Diag::new("W16", owned("constants cannot have type parameters"), start));
        }
        let ty = self.parse_type()?;
        let _ = self.expect(Tok::Assign, "`=`", "W16")?;
        let body = self.parse_expr()?;
        let span = start.merge(self.prev_span());
        Ok(Def { name, tparams, params: None, ty, body, span })
    }

    /// A function's `(params) -> R = body`, after its name and type
    /// parameters.
    fn parse_fn_rest(&mut self, name: String, tparams: Vec<String>, start: Span) -> (r: PResult<Def>)
        requires
            old(self).wf(),
            !(old(self).cur() is Colon),
        ensures
            final(self).step(old(self)),
            r is Ok ==> final(self).pos > old(self).pos,
            r is Err ==> crate::diag::cites_rule(r->Err_0),
            def_result(
                r,
                final(self).pos as int,
                def_rest(old(self).toks@, old(self).pos as int, name@, names_of(tparams@), start, old(self).no_struct),
            ),
    {
        let ghost ts = self.toks@;
        let ghost p0 = self.pos as int;
        let ghost ns = self.no_struct;
        proof {
            reveal(def_rest);
            assert(ts.last() == ts[ts.len() - 1]);
        }
        let _ = self.expect(Tok::LParen, "`(` or `:` after the definition name", "W16")?;
        let mut params: Vec<Param> = Vec::new();
        proof {
            assert(params_view(params@) =~= Seq::<ParamV>::empty());
        }
        if !self.peek_is(&Tok::RParen) {
            loop
                invariant_except_break
                    def_rest(ts, p0, name@, names_of(tparams@), start, ns) == params_at(
                        ts,
                        self.pos as int,
                        params_view(params@),
                        name@,
                        names_of(tparams@),
                        start,
                        ns,
                    ),
                invariant
                    self.step(old(self)),
                    self.pos > old(self).pos,
                    ts == self.toks@,
                    p0 == old(self).pos,
                    ns == old(self).no_struct,
                ensures
                    self.step(old(self)),
                    self.pos > old(self).pos,
                    def_rest(ts, p0, name@, names_of(tparams@), start, ns) == def_sig(
                        ts,
                        self.pos as int,
                        name@,
                        names_of(tparams@),
                        params_view(params@),
                        start,
                        ns,
                    ),
                decreases self.toks@.len() - self.pos,
            {
                let p = self.parse_param()?;
                proof {
                    assert(params_view(params@.push(p)) =~= params_view(params@).push(param_view(p)));
                }
                params.push(p);
                if !self.eat(&Tok::Comma) {
                    break;
                }
            }
        }
        proof {
            reveal(def_sig);
        }
        let _ = self.expect(Tok::RParen, "`)`", "W16")?;
        let _ = self.expect(Tok::Arrow, "`->` and a return type", "W18")?;
        let ty = self.parse_type()?;
        let _ = self.expect(Tok::Assign, "`=`", "W16")?;
        let body = self.parse_expr()?;
        let span = start.merge(self.prev_span());
        Ok(Def { name, tparams, params: Some(params), ty, body, span })
    }

    fn parse_param(&mut self) -> (r: PResult<Param>)
        requires
            old(self).wf(),
        ensures
            final(self).step(old(self)),
            r is Ok ==> final(self).pos > old(self).pos,
            r is Err ==> crate::diag::cites_rule(r->Err_0),
            param_result(r, final(self).pos as int, param_at(old(self).toks@, old(self).pos as int, old(self).no_struct)),
    {
        proof {
            reveal(param_at);
        }
        let ghost ts = self.toks@;
        proof {
            assert(ts.last() == ts[ts.len() - 1]);
        }
        let start = self.span();
        let name = self.expect_ident("a parameter name", "W16")?;
        let _ = self.expect(Tok::Colon, "`:` and a parameter type", "W18")?;
        let ty = self.parse_type()?;
        let contract = if self.eat(&Tok::Where) {
            Some(self.parse_expr()?)
        } else {
            None
        };
        Ok(Param { name, ty, contract, span: start.merge(self.prev_span()) })
    }

    // ---- tests ----

    fn parse_test(&mut self) -> (r: PResult<Test>)
        requires
            old(self).wf(),
            old(self).cur() is Test,
        ensures
            final(self).step(old(self)),
            r is Ok ==> final(self).pos > old(self).pos,
            r is Err ==> crate::diag::cites_rule(r->Err_0),
            test_result(r, final(self).pos as int, test_at(old(self).toks@, old(self).pos as int, old(self).no_struct)),
    {
        proof {
            reveal(test_at);
        }
        let ghost ts = self.toks@;
        let ghost p0 = self.pos as int;
        let ghost ns = self.no_struct;
        proof {
            reveal_strlit("");
            assert(ts.last() == ts[ts.len() - 1]);
        }
        let start = self.span();
        let _ = self.bump();
        let t = self.bump();
        let name = match t.tok {
            Tok::Text(s) => s,
            other => {
                let d = describe(&other);
                return Err(Diag::new("W34", cat3("expected a test name in quotes, found ", d.as_str(), ""), t.span));
            },
        };
        let mut params: Vec<Param> = Vec::new();
        proof {
            assert(params_view(params@) =~= Seq::<ParamV>::empty());
        }
        if self.eat(&Tok::LParen) {
            loop
                invariant_except_break
                    test_at(ts, p0, ns) == test_params(ts, self.pos as int, params_view(params@), name@, start, ns),
                invariant
                    self.step(old(self)),
                    self.pos > old(self).pos,
                    ts == self.toks@,
                    p0 == old(self).pos,
                    ns == old(self).no_struct,
                ensures
                    self.step(old(self)),
                    self.pos > old(self).pos,
                    self.cur() == TokV::RParen ==> test_at(ts, p0, ns) == test_tail(
                        ts,
                        self.pos + 1,
                        name@,
                        params_view(params@),
                        start,
                        ns,
                    ),
                    self.cur() != TokV::RParen ==> test_at(ts, p0, ns) == fail::<TestV>(
                        exp_err(ts, self.pos as int, "W35"@, "`)`"@),
                    ),
                decreases self.toks@.len() - self.pos,
            {
                let p = self.parse_param()?;
                proof {
                    assert(params_view(params@.push(p)) =~= params_view(params@).push(param_view(p)));
                }
                params.push(p);
                if !self.eat(&Tok::Comma) {
                    break;
                }
            }
            let _ = self.expect(Tok::RParen, "`)`", "W35")?;
        }
        proof {
            reveal(test_tail);
        }
        let _ = self.expect(Tok::Assign, "`=`", "W34")?;
        let body = self.parse_expr()?;
        Ok(Test { name, params, body, span: start.merge(self.prev_span()) })
    }
}

} // verus!
