//! The expression parser's primary forms: literals, names, constructors,
//! `if`, `match`, lists, records, blocks and lambdas.
use vstd::prelude::*;
use crate::ast::{Expr, ExprKind, Pattern, TypeExpr};
use crate::diag::{Diag, Span};
use crate::exprs::{
    ExprV, arms_at, is_atom, kind_view, arms_close, arms_view, block_at, brace_at, elems_at, ex_result, ex_view, exs_view, field_at, field_result, fields_view,
    if_at, la_scan, lam_params, lam_tail, lambda_at, lemma_arms_view_push, lemma_exs_view_push, lemma_fields_view_push,
    lemma_lparams_view_push, list_at, list_close, lparams_view, match_at, named_body, nclose, nfield_next, nfields, primary_at,
    rec_close, rec_fields, spread_at, spread_fields, spread_view, tk,
};
use crate::lexer::{Tok, TokV};
use crate::parser::{PResult, Parser, PatternV, TypeV};
use crate::text::{cat3, copy_string, owned};

verus! {

impl Parser {
    pub(crate) fn parse_primary(&mut self) -> (r: PResult<Expr>)
        requires
            old(self).wf(),
        ensures
            final(self).step(old(self)),
            r is Ok ==> final(self).pos > old(self).pos,
            r is Err ==> crate::diag::cites_rule(r->Err_0),
            ex_result(r, final(self).pos as int, primary_at(old(self).toks@, old(self).pos as int, old(self).no_struct)),
        decreases old(self).toks@.len() - old(self).pos, 12nat,
    {
        let ghost ts = self.toks@;
        let start = self.span();
        proof {
            reveal_strlit("");
            assert(ts.last() == ts[ts.len() - 1]);
        }
        match self.peek() {
            Tok::Int(_) | Tok::Float(_) | Tok::Text(_) | Tok::True | Tok::False | Tok::UnitLit | Tok::Hole(_) | Tok::Ident(
                _,
            ) => self.parse_atom(),
            Tok::Upper(n) => {
                let name = copy_string(n);
                let _ = self.bump();
                // Nominal record construction `Name{...}`, unless we are
                // parsing a match scrutinee where `{` opens the arms.
                if self.peek_is(&Tok::LBrace) && !self.no_struct {
                    return self.parse_named_rec(name, start);
                }
                // Bare constructor; a following `(` is handled in parse_postfix.
                let e = Expr { kind: ExprKind::Ctor(name, Vec::new()), span: start };
                proof {
                    reveal(kind_view);
                    assert(exs_view(Seq::<Expr>::empty()) =~= Seq::<ExprV>::empty());
                }
                Ok(e)
            }
            Tok::If => {
                let _ = self.bump();
                self.parse_if(start)
            }
            Tok::Match => {
                let _ = self.bump();
                self.parse_match(start)
            }
            Tok::LBracket => {
                let _ = self.bump();
                self.parse_list(start)
            }
            Tok::LBrace => {
                let saved = self.no_struct;
                self.no_struct = false;
                let r = self.parse_brace(start);
                self.no_struct = saved;
                r
            }
            Tok::LParen => {
                if self.lambda_ahead() {
                    return self.parse_lambda(start);
                }
                let _ = self.bump();
                let inner = self.parse_expr_open()?;
                let _ = self.expect(Tok::RParen, "`)`", "W25")?;
                Ok(inner)
            }
            _ => {
                let d = self.peek_describe();
                Err(Diag::new("W25", cat3("expected an expression, found ", d.as_str(), ""), start))
            }
        }
    }

    /// A literal, a hole or a variable: one token.
    fn parse_atom(&mut self) -> (r: PResult<Expr>)
        requires
            old(self).wf(),
            is_atom(old(self).cur()),
        ensures
            final(self).step(old(self)),
            final(self).pos == old(self).pos + 1,
            r is Ok,
            ex_result(r, final(self).pos as int, primary_at(old(self).toks@, old(self).pos as int, old(self).no_struct)),
    {
        let start = self.span();
        proof {
            reveal(kind_view);
        }
        match self.peek() {
            Tok::Int(v) => {
                let v = *v;
                let _ = self.bump();
                Ok(Expr { kind: ExprKind::Int(v), span: start })
            }
            Tok::Float(f) => {
                let f = copy_string(f);
                let _ = self.bump();
                Ok(Expr { kind: ExprKind::Float(f), span: start })
            }
            Tok::Text(s) => {
                let s = copy_string(s);
                let _ = self.bump();
                Ok(Expr { kind: ExprKind::Text(s), span: start })
            }
            Tok::True => {
                let _ = self.bump();
                Ok(Expr { kind: ExprKind::Bool(true), span: start })
            }
            Tok::False => {
                let _ = self.bump();
                Ok(Expr { kind: ExprKind::Bool(false), span: start })
            }
            Tok::UnitLit => {
                let _ = self.bump();
                Ok(Expr { kind: ExprKind::Unit, span: start })
            }
            Tok::Hole(n) => {
                let n = copy_string(n);
                let _ = self.bump();
                Ok(Expr { kind: ExprKind::Hole(n), span: start })
            }
            Tok::Ident(n) => {
                let n = copy_string(n);
                let _ = self.bump();
                Ok(Expr { kind: ExprKind::Var(n), span: start })
            }
            _ => vstd::pervasive::unreached(),
        }
    }

    /// The elements and `]` of a list whose `[` has span `start`.
    fn parse_list(&mut self, start: Span) -> (r: PResult<Expr>)
        requires
            old(self).wf(),
        ensures
            final(self).step(old(self)),
            r is Ok ==> final(self).pos > old(self).pos,
            r is Err ==> crate::diag::cites_rule(r->Err_0),
            ex_result(r, final(self).pos as int, list_at(old(self).toks@, old(self).pos as int, start)),
        decreases old(self).toks@.len() - old(self).pos, 22nat,
    {
        let ghost ts = self.toks@;
        let ghost p0 = self.pos as int;
        let mut elems: Vec<Expr> = Vec::new();
        proof {
            assert(exs_view(elems@) =~= Seq::<ExprV>::empty());
        }
        if !self.peek_is(&Tok::RBracket) {
            loop
                invariant_except_break
                    list_at(ts, p0, start) == elems_at(ts, self.pos as int, exs_view(elems@), start),
                invariant
                    self.step(old(self)),
                    self.pos >= old(self).pos,
                    ts == self.toks@,
                    p0 == old(self).pos,
                ensures
                    self.step(old(self)),
                    self.pos > old(self).pos,
                    list_at(ts, p0, start) == list_close(ts, self.pos as int, exs_view(elems@), start),
                decreases self.toks@.len() - self.pos,
            {
                let elem = self.parse_expr_open()?;
                proof {
                    lemma_exs_view_push(elems@, elem);
                }
                elems.push(elem);
                if !self.eat(&Tok::Comma) {
                    break;
                }
                if self.peek_is(&Tok::RBracket) {
                    break;
                }
            }
        }
        proof {
            assert(list_at(ts, p0, start) == list_close(ts, self.pos as int, exs_view(elems@), start));
        }
        let _ = self.expect(Tok::RBracket, "`]`", "W6")?;
        let span = start.merge(self.prev_span());
        proof {
            reveal(kind_view);
        }
        Ok(Expr { kind: ExprKind::List(elems), span })
    }

    /// `cond then e1 else e2` after `if`, whose span is `start`.
    fn parse_if(&mut self, start: Span) -> (r: PResult<Expr>)
        requires
            old(self).wf(),
        ensures
            final(self).step(old(self)),
            r is Ok ==> final(self).pos > old(self).pos,
            r is Err ==> crate::diag::cites_rule(r->Err_0),
            ex_result(r, final(self).pos as int, if_at(old(self).toks@, old(self).pos as int, old(self).no_struct, start)),
        decreases old(self).toks@.len() - old(self).pos, 22nat,
    {
        let cond = self.parse_expr()?;
        let _ = self.expect(Tok::Then, "`then`", "W22")?;
        let then = self.parse_expr()?;
        let _ = self.expect(Tok::Else, "`else` (the else branch is required)", "W22")?;
        let els = self.parse_expr()?;
        let span = start.merge(els.span);
        proof {
            reveal(kind_view);
        }
        Ok(Expr { kind: ExprKind::If { cond: Box::new(cond), then: Box::new(then), els: Box::new(els) }, span })
    }

    /// The scrutinee and arms after `match`, whose span is `start`.
    fn parse_match(&mut self, start: Span) -> (r: PResult<Expr>)
        requires
            old(self).wf(),
        ensures
            final(self).step(old(self)),
            r is Ok ==> final(self).pos > old(self).pos,
            r is Err ==> crate::diag::cites_rule(r->Err_0),
            ex_result(r, final(self).pos as int, match_at(old(self).toks@, old(self).pos as int, start)),
        decreases old(self).toks@.len() - old(self).pos, 22nat,
    {
        let ghost ts = self.toks@;
        let ghost p0 = self.pos as int;
        let saved = self.no_struct;
        self.no_struct = true;
        let scrutinee = self.parse_expr();
        self.no_struct = saved;
        let scrutinee = scrutinee?;
        let _ = self.expect(Tok::LBrace, "`{` to open match arms", "W23")?;
        let mut arms: Vec<(Pattern, Expr)> = Vec::new();
        proof {
            assert(arms_view(arms@) =~= Seq::<(PatternV, ExprV)>::empty());
        }
        while !self.peek_is(&Tok::RBrace)
            invariant_except_break
                match_at(ts, p0, start) == arms_at(ts, self.pos as int, ex_view(scrutinee), arms_view(arms@), start),
            invariant
                self.step(old(self)),
                self.pos > old(self).pos,
                ts == self.toks@,
                p0 == old(self).pos,
            ensures
                self.step(old(self)),
                self.pos > old(self).pos,
                match_at(ts, p0, start) == arms_close(ts, self.pos as int, ex_view(scrutinee), arms_view(arms@), start),
            decreases self.toks@.len() - self.pos,
        {
            let pat = self.parse_pattern()?;
            let _ = self.expect(Tok::FatArrow, "`=>`", "W23")?;
            let body = self.parse_expr_open()?;
            proof {
                lemma_arms_view_push(arms@, (pat, body));
            }
            arms.push((pat, body));
            if !self.eat(&Tok::Comma) {
                break;
            }
        }
        let _ = self.expect(Tok::RBrace, "`}` to close match arms", "W23")?;
        if arms.len() == 0 {
            proof {
                assert(arms_view(arms@) =~= Seq::<(PatternV, ExprV)>::empty());
            }
            return Err(Diag::new("W24", owned("match must have at least one arm"), start));
        }
        let span = start.merge(self.prev_span());
        proof {
            reveal(kind_view);
        }
        Ok(Expr { kind: ExprKind::Match { scrutinee: Box::new(scrutinee), arms }, span })
    }

    /// `Name{f: e, ...}` or `Name{..base, f: e, ...}`, at the `{`.
    fn parse_named_rec(&mut self, name: String, start: Span) -> (r: PResult<Expr>)
        requires
            old(self).wf(),
            old(self).cur() is LBrace,
        ensures
            final(self).step(old(self)),
            r is Ok ==> final(self).pos > old(self).pos,
            r is Err ==> crate::diag::cites_rule(r->Err_0),
            ex_result(r, final(self).pos as int, named_body(old(self).toks@, old(self).pos + 1, name@, start)),
        decreases old(self).toks@.len() - old(self).pos, 11nat,
    {
        let _ = self.expect(Tok::LBrace, "`{`", "W42")?;
        let saved = self.no_struct;
        self.no_struct = false;
        let r = self.named_rec_body(name, start);
        self.no_struct = saved;
        r
    }

    #[verifier::rlimit(40)]
    fn named_rec_body(&mut self, name: String, start: Span) -> (r: PResult<Expr>)
        requires
            old(self).wf(),
            !old(self).no_struct,
        ensures
            final(self).step(old(self)),
            r is Err ==> crate::diag::cites_rule(r->Err_0),
            ex_result(r, final(self).pos as int, named_body(old(self).toks@, old(self).pos as int, name@, start)),
        decreases old(self).toks@.len() - old(self).pos, 24nat,
    {
        let ghost ts = self.toks@;
        let ghost q0 = self.pos as int;
        proof {
            assert(ts.last() == ts[ts.len() - 1]);
        }
        let spread = if self.peek_is(&Tok::DotDot) {
            let _ = self.bump();
            Some(Box::new(self.parse_expr()?))
        } else {
            None
        };
        let mut fields: Vec<(String, Expr)> = Vec::new();
        let mut first = spread.is_none();
        proof {
            assert(fields_view(fields@) =~= Seq::<(Seq<char>, ExprV)>::empty());
        }
        loop
            invariant_except_break
                named_body(ts, q0, name@, start) == nfields(
                    ts,
                    self.pos as int,
                    name@,
                    spread_view(spread),
                    fields_view(fields@),
                    first,
                    start,
                ),
            invariant
                self.step(old(self)),
                ts == self.toks@,
                q0 == old(self).pos,
                ts.last() == ts[ts.len() - 1],
                !self.no_struct,
            ensures
                self.step(old(self)),
                named_body(ts, q0, name@, start) == nclose(
                    ts,
                    self.pos as int,
                    name@,
                    spread_view(spread),
                    fields_view(fields@),
                    start,
                ),
            decreases self.toks@.len() - self.pos,
        {
            if self.peek_is(&Tok::RBrace) {
                break;
            }
            if !first {
                if !self.eat(&Tok::Comma) {
                    break;
                }
                if self.peek_is(&Tok::RBrace) {
                    break;
                }
            }
            proof {
                assert(named_body(ts, q0, name@, start) == nfield_next(
                    ts,
                    self.pos as int,
                    name@,
                    spread_view(spread),
                    fields_view(fields@),
                    start,
                ));
            }
            first = false;
            let field = self.parse_field("W42")?;
            proof {
                lemma_fields_view_push(fields@, field);
            }
            fields.push(field);
        }
        let _ = self.expect(Tok::RBrace, "`}`", "W42")?;
        let span = start.merge(self.prev_span());
        proof {
            reveal(kind_view);
        }
        Ok(Expr { kind: ExprKind::NamedRec { name, spread, fields }, span })
    }

    /// A record field `name: value`, citing `rule` on error.
    fn parse_field(&mut self, rule: &str) -> (r: PResult<(String, Expr)>)
        requires
            old(self).wf(),
            !old(self).no_struct,
            crate::diag::rule_ids().contains(rule@),
        ensures
            final(self).step(old(self)),
            r is Ok ==> final(self).pos > old(self).pos,
            r is Err ==> crate::diag::cites_rule(r->Err_0),
            field_result(r, final(self).pos as int, field_at(old(self).toks@, old(self).pos as int, rule@)),
        decreases old(self).toks@.len() - old(self).pos, 22nat,
    {
        let ghost ts = self.toks@;
        proof {
            assert(ts.last() == ts[ts.len() - 1]);
        }
        let fname = self.expect_ident("a field name", rule)?;
        let _ = self.expect(Tok::Colon, "`:`", rule)?;
        let val = self.parse_expr()?;
        Ok((fname, val))
    }

    /// At `{`: decide block vs record literal.
    fn parse_brace(&mut self, start: Span) -> (r: PResult<Expr>)
        requires
            old(self).wf(),
            old(self).cur() is LBrace,
            !old(self).no_struct,
        ensures
            final(self).step(old(self)),
            r is Ok ==> final(self).pos > old(self).pos,
            r is Err ==> crate::diag::cites_rule(r->Err_0),
            ex_result(r, final(self).pos as int, brace_at(old(self).toks@, old(self).pos + 1, start)),
        decreases old(self).toks@.len() - old(self).pos, 11nat,
    {
        let ghost ts = self.toks@;
        proof {
            assert(ts.last() == ts[ts.len() - 1]);
        }
        let _ = self.bump();
        // record spread `{..base, ...}`
        if self.peek_is(&Tok::DotDot) {
            return self.parse_spread(start);
        }
        // record literal iff `ident :` (or empty record `{}`)
        let is_record = match self.peek() {
            Tok::RBrace => true,
            Tok::Ident(_) => match self.peek_at(1) {
                Tok::Colon => true,
                _ => false,
            },
            _ => false,
        };
        if is_record {
            self.parse_record(start)
        } else {
            self.parse_block(start)
        }
    }

    /// `..base, f: e, ... }` of a record spread, at the `..`.
    fn parse_spread(&mut self, start: Span) -> (r: PResult<Expr>)
        requires
            old(self).wf(),
            old(self).cur() is DotDot,
            !old(self).no_struct,
        ensures
            final(self).step(old(self)),
            r is Ok ==> final(self).pos > old(self).pos,
            r is Err ==> crate::diag::cites_rule(r->Err_0),
            ex_result(r, final(self).pos as int, spread_at(old(self).toks@, old(self).pos as int, start)),
        decreases old(self).toks@.len() - old(self).pos, 23nat,
    {
        let ghost ts = self.toks@;
        let ghost p0 = self.pos as int;
        proof {
            assert(ts.last() == ts[ts.len() - 1]);
        }
        let _ = self.bump();
        let base = self.parse_expr()?;
        let mut fields: Vec<(String, Expr)> = Vec::new();
        proof {
            assert(fields_view(fields@) =~= Seq::<(Seq<char>, ExprV)>::empty());
        }
        while self.eat(&Tok::Comma)
            invariant_except_break
                spread_at(ts, p0, start) == spread_fields(ts, self.pos as int, ex_view(base), fields_view(fields@), start),
            invariant
                self.step(old(self)),
                self.pos > old(self).pos,
                ts == self.toks@,
                p0 == old(self).pos,
                ts.last() == ts[ts.len() - 1],
                !self.no_struct,
            ensures
                self.step(old(self)),
                self.pos > old(self).pos,
                spread_at(ts, p0, start) == rec_close(
                    ts,
                    self.pos as int,
                    Some(Box::new(ex_view(base))),
                    fields_view(fields@),
                    start,
                ),
            decreases self.toks@.len() - self.pos,
        {
            if self.peek_is(&Tok::RBrace) {
                break;
            }
            let field = self.parse_field("W11")?;
            proof {
                lemma_fields_view_push(fields@, field);
            }
            fields.push(field);
        }
        let _ = self.expect(Tok::RBrace, "`}`", "W11")?;
        let span = start.merge(self.prev_span());
        proof {
            reveal(kind_view);
        }
        proof {
            assert(spread_view(Some(Box::new(base))) == Some(Box::new(ex_view(base))));
        }
        Ok(Expr { kind: ExprKind::Record { spread: Some(Box::new(base)), fields }, span })
    }

    /// The fields and `}` of a record literal, after its `{`.
    fn parse_record(&mut self, start: Span) -> (r: PResult<Expr>)
        requires
            old(self).wf(),
            !old(self).no_struct,
            old(self).cur() is RBrace || (old(self).cur() is Ident && tk(old(self).toks@, old(self).pos + 1)
                == TokV::Colon),
        ensures
            final(self).step(old(self)),
            r is Ok ==> final(self).pos > old(self).pos,
            r is Err ==> crate::diag::cites_rule(r->Err_0),
            ex_result(r, final(self).pos as int, brace_at(old(self).toks@, old(self).pos as int, start)),
        decreases old(self).toks@.len() - old(self).pos, 23nat,
    {
        let ghost ts = self.toks@;
        let ghost p0 = self.pos as int;
        proof {
            assert(ts.last() == ts[ts.len() - 1]);
        }
        let mut fields: Vec<(String, Expr)> = Vec::new();
        proof {
            assert(fields_view(fields@) =~= Seq::<(Seq<char>, ExprV)>::empty());
        }
        if !self.peek_is(&Tok::RBrace) {
            loop
                invariant_except_break
                    brace_at(ts, p0, start) == rec_fields(ts, self.pos as int, fields_view(fields@), start),
                invariant
                    self.step(old(self)),
                    self.pos >= old(self).pos,
                    ts == self.toks@,
                    p0 == old(self).pos,
                    ts.last() == ts[ts.len() - 1],
                    !self.no_struct,
                ensures
                    self.step(old(self)),
                    self.pos > old(self).pos,
                    brace_at(ts, p0, start) == rec_close(ts, self.pos as int, None, fields_view(fields@), start),
                decreases self.toks@.len() - self.pos,
            {
                let field = self.parse_field("W11")?;
                proof {
                    lemma_fields_view_push(fields@, field);
                }
                fields.push(field);
                if !self.eat(&Tok::Comma) {
                    break;
                }
                if self.peek_is(&Tok::RBrace) {
                    break;
                }
            }
        }
        proof {
            assert(brace_at(ts, p0, start) == rec_close(ts, self.pos as int, None, fields_view(fields@), start));
        }
        let _ = self.expect(Tok::RBrace, "`}`", "W11")?;
        let span = start.merge(self.prev_span());
        proof {
            reveal(kind_view);
        }
        proof {
            assert(spread_view(None) == None::<Box<ExprV>>);
        }
        Ok(Expr { kind: ExprKind::Record { spread: None, fields }, span })
    }

    /// The `let` statements and tail of a block, after its `{`.
    #[verifier::rlimit(40)]
    fn parse_block(&mut self, start: Span) -> (r: PResult<Expr>)
        requires
            old(self).wf(),
            !old(self).no_struct,
        ensures
            final(self).step(old(self)),
            r is Ok ==> final(self).pos > old(self).pos,
            r is Err ==> crate::diag::cites_rule(r->Err_0),
            ex_result(r, final(self).pos as int, block_at(old(self).toks@, old(self).pos as int, seq![], start)),
        decreases old(self).toks@.len() - old(self).pos, 23nat,
    {
        let ghost ts = self.toks@;
        let ghost p0 = self.pos as int;
        let mut lets: Vec<(String, Expr)> = Vec::new();
        proof {
            reveal_strlit("_");
            assert(ts.last() == ts[ts.len() - 1]);
            assert(fields_view(lets@) =~= Seq::<(Seq<char>, ExprV)>::empty());
        }
        loop
            invariant
                self.step(old(self)),
                self.pos >= old(self).pos,
                ts == self.toks@,
                p0 == old(self).pos,
                ts.last() == ts[ts.len() - 1],
                !self.no_struct,
                block_at(ts, p0, seq![], start) == block_at(ts, self.pos as int, fields_view(lets@), start),
            decreases self.toks@.len() - self.pos,
        {
            if self.peek_is(&Tok::Let) {
                let _ = self.bump();
                let name = if self.eat(&Tok::Underscore) {
                    owned("_")
                } else {
                    self.expect_ident("a name (or `_`) after `let`", "W21")?
                };
                let _ = self.expect(Tok::Assign, "`=`", "W21")?;
                let val = self.parse_expr()?;
                let _ = self.expect(Tok::Semi, "`;` after a let statement", "W21")?;
                proof {
                    lemma_fields_view_push(lets@, (name, val));
                }
                lets.push((name, val));
            } else {
                let tail = self.parse_expr()?;
                let _ = self.expect(Tok::RBrace, "`}` after the block's final expression", "W21")?;
                let span = start.merge(self.prev_span());
                proof {
                    reveal(kind_view);
                }
                return Ok(Expr { kind: ExprKind::Block { lets, tail: Box::new(tail) }, span });
            }
        }
    }

    /// Look ahead from a `(` to see whether it starts a lambda: scan to the
    /// matching `)` and check the next token is `=>`.
    fn lambda_ahead(&self) -> (r: bool)
        requires
            self.wf(),
        ensures
            r == la_scan(self.toks@, self.pos as int, 0),
    {
        let mut depth: usize = 0;
        let mut i = self.pos;
        while i < self.toks.len()
            invariant
                self.wf(),
                self.pos <= i <= self.toks@.len(),
                depth <= i,
                la_scan(self.toks@, self.pos as int, 0) == la_scan(self.toks@, i as int, depth as nat),
            decreases self.toks.len() - i,
        {
            match &self.toks[i].tok {
                Tok::LParen | Tok::LBracket | Tok::LBrace => {
                    depth = depth + 1;
                }
                Tok::RParen | Tok::RBracket | Tok::RBrace => {
                    depth = if depth > 0 { depth - 1 } else { 0 };
                    if depth == 0 {
                        return i + 1 < self.toks.len() && match &self.toks[i + 1].tok {
                            Tok::FatArrow => true,
                            _ => false,
                        };
                    }
                }
                Tok::Eof => {
                    return false;
                }
                _ => {}
            }
            i += 1;
        }
        false
    }

    /// A lambda `(x, y: T) => body`, at the `(`.
    fn parse_lambda(&mut self, start: Span) -> (r: PResult<Expr>)
        requires
            old(self).wf(),
            old(self).cur() is LParen,
        ensures
            final(self).step(old(self)),
            r is Ok ==> final(self).pos > old(self).pos,
            r is Err ==> crate::diag::cites_rule(r->Err_0),
            ex_result(r, final(self).pos as int, lambda_at(old(self).toks@, old(self).pos + 1, old(self).no_struct, start)),
        decreases old(self).toks@.len() - old(self).pos, 11nat,
    {
        let ghost ts = self.toks@;
        let ghost q0 = self.pos + 1;
        let ghost ns = self.no_struct;
        proof {
            reveal_strlit("_");
            assert(ts.last() == ts[ts.len() - 1]);
        }
        let _ = self.expect(Tok::LParen, "`(`", "W20")?;
        let mut params: Vec<(String, Option<TypeExpr>)> = Vec::new();
        proof {
            assert(lparams_view(params@) =~= Seq::<(Seq<char>, Option<TypeV>)>::empty());
        }
        if !self.peek_is(&Tok::RParen) {
            loop
                invariant_except_break
                    lambda_at(ts, q0, ns, start) == lam_params(ts, self.pos as int, lparams_view(params@), ns, start),
                invariant
                    self.step(old(self)),
                    self.pos > old(self).pos,
                    ts == self.toks@,
                    q0 == old(self).pos + 1,
                    ns == old(self).no_struct,
                ensures
                    self.step(old(self)),
                    self.pos > old(self).pos,
                    lambda_at(ts, q0, ns, start) == lam_tail(ts, self.pos as int, lparams_view(params@), ns, start),
                decreases self.toks@.len() - self.pos,
            {
                let pname = if self.eat(&Tok::Underscore) {
                    owned("_")
                } else {
                    self.expect_ident("a lambda parameter name", "W20")?
                };
                let ty = if self.eat(&Tok::Colon) {
                    Some(self.parse_type()?)
                } else {
                    None
                };
                proof {
                    lemma_lparams_view_push(params@, (pname, ty));
                }
                params.push((pname, ty));
                if !self.eat(&Tok::Comma) {
                    break;
                }
            }
        }
        let _ = self.expect(Tok::RParen, "`)`", "W20")?;
        let _ = self.expect(Tok::FatArrow, "`=>`", "W20")?;
        let body = self.parse_expr()?;
        let span = start.merge(body.span);
        proof {
            reveal(kind_view);
        }
        Ok(Expr { kind: ExprKind::Lambda { params, body: Box::new(body) }, span })
    }
}

} // verus!
