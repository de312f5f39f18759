//! The expression parser's operator layers: precedence climbing over the
//! binary operators, the prefix operators, and calls, field accesses and
//! `?` after a primary expression.
use vstd::prelude::*;
use crate::ast::{BinOp, Expr, ExprKind};
use crate::diag::merge_spec;
use crate::exprs::{
    ExParse, ExV, ExprV, apply_call, bin_at, bin_rest, call_args, ex_at, ex_result, ex_view, exp_fail, kind_view, exs_view,
    lemma_exs_view_len, lemma_exs_view_push, op_of, post_rest, postfix_at, call_at, is_postfix_op, post_one, spn, tk, unary_at,
};
use crate::lexer::{Tok, TokV};
use crate::parser::{PResult, Parser};
use crate::text::cat;

verus! {

impl Parser {
    // ---- expressions, precedence climbing ----

    /// Parse one expression.
    pub fn parse_expr(&mut self) -> (r: PResult<Expr>)
        requires
            old(self).wf(),
        ensures
            final(self).step(old(self)),
            r is Ok ==> final(self).pos > old(self).pos,
            r is Err ==> crate::diag::cites_rule(r->Err_0),
            ex_result(r, final(self).pos as int, ex_at(old(self).toks@, old(self).pos as int, old(self).no_struct)),
        decreases old(self).toks@.len() - old(self).pos, 20nat,
    {
        self.parse_or()
    }

    /// `parse_expr` with the struct-literal restriction lifted (inside
    /// parens, brackets, or braces the ambiguity is gone).
    pub(crate) fn parse_expr_open(&mut self) -> (r: PResult<Expr>)
        requires
            old(self).wf(),
        ensures
            final(self).step(old(self)),
            r is Ok ==> final(self).pos > old(self).pos,
            r is Err ==> crate::diag::cites_rule(r->Err_0),
            ex_result(r, final(self).pos as int, ex_at(old(self).toks@, old(self).pos as int, false)),
        decreases old(self).toks@.len() - old(self).pos, 21nat,
    {
        let saved = self.no_struct;
        self.no_struct = false;
        let r = self.parse_expr();
        self.no_struct = saved;
        r
    }

    fn parse_or(&mut self) -> (r: PResult<Expr>)
        requires
            old(self).wf(),
        ensures
            final(self).step(old(self)),
            r is Ok ==> final(self).pos > old(self).pos,
            r is Err ==> crate::diag::cites_rule(r->Err_0),
            ex_result(r, final(self).pos as int, bin_at(old(self).toks@, old(self).pos as int, old(self).no_struct, 4)),
        decreases old(self).toks@.len() - old(self).pos, 19nat,
    {
        let ghost ts = self.toks@;
        let ghost p0 = self.pos as int;
        let ghost ns = self.no_struct;
        let mut lhs = self.parse_and()?;
        while self.peek_is(&Tok::Or)
            invariant
                self.step(old(self)),
                self.pos > old(self).pos,
                ts == self.toks@,
                p0 == old(self).pos,
                ns == old(self).no_struct,
                bin_at(ts, p0, ns, 4) == bin_rest(ts, self.pos as int, ex_view(lhs), ns, 4),
            decreases self.toks@.len() - self.pos,
        {
            let _ = self.bump();
            let rhs = self.parse_and()?;
            let span = lhs.span.merge(rhs.span);
            proof {
                reveal(kind_view);
            }
            lhs = Expr { kind: ExprKind::Bin(BinOp::Or, Box::new(lhs), Box::new(rhs)), span };
        }
        Ok(lhs)
    }

    fn parse_and(&mut self) -> (r: PResult<Expr>)
        requires
            old(self).wf(),
        ensures
            final(self).step(old(self)),
            r is Ok ==> final(self).pos > old(self).pos,
            r is Err ==> crate::diag::cites_rule(r->Err_0),
            ex_result(r, final(self).pos as int, bin_at(old(self).toks@, old(self).pos as int, old(self).no_struct, 3)),
        decreases old(self).toks@.len() - old(self).pos, 18nat,
    {
        let ghost ts = self.toks@;
        let ghost p0 = self.pos as int;
        let ghost ns = self.no_struct;
        let mut lhs = self.parse_compare()?;
        while self.peek_is(&Tok::And)
            invariant
                self.step(old(self)),
                self.pos > old(self).pos,
                ts == self.toks@,
                p0 == old(self).pos,
                ns == old(self).no_struct,
                bin_at(ts, p0, ns, 3) == bin_rest(ts, self.pos as int, ex_view(lhs), ns, 3),
            decreases self.toks@.len() - self.pos,
        {
            let _ = self.bump();
            let rhs = self.parse_compare()?;
            let span = lhs.span.merge(rhs.span);
            proof {
                reveal(kind_view);
            }
            lhs = Expr { kind: ExprKind::Bin(BinOp::And, Box::new(lhs), Box::new(rhs)), span };
        }
        Ok(lhs)
    }

    /// The comparison operator at the cursor, if any.
    fn compare_op(&self) -> (r: Option<BinOp>)
        requires
            self.wf(),
        ensures
            r == op_of(2, self.cur()),
    {
        match self.peek() {
            Tok::EqEq => Some(BinOp::Eq),
            Tok::Ne => Some(BinOp::Ne),
            Tok::Lt => Some(BinOp::Lt),
            Tok::Le => Some(BinOp::Le),
            Tok::Gt => Some(BinOp::Gt),
            Tok::Ge => Some(BinOp::Ge),
            _ => None,
        }
    }

    /// The additive operator at the cursor, if any.
    fn add_op(&self) -> (r: Option<BinOp>)
        requires
            self.wf(),
        ensures
            r == op_of(1, self.cur()),
    {
        match self.peek() {
            Tok::Plus => Some(BinOp::Add),
            Tok::Minus => Some(BinOp::Sub),
            Tok::PlusPlus => Some(BinOp::Concat),
            _ => None,
        }
    }

    /// The multiplicative operator at the cursor, if any.
    fn mul_op(&self) -> (r: Option<BinOp>)
        requires
            self.wf(),
        ensures
            r == op_of(0, self.cur()),
    {
        match self.peek() {
            Tok::Star => Some(BinOp::Mul),
            Tok::Slash => Some(BinOp::Div),
            Tok::Percent => Some(BinOp::Rem),
            _ => None,
        }
    }

    fn parse_compare(&mut self) -> (r: PResult<Expr>)
        requires
            old(self).wf(),
        ensures
            final(self).step(old(self)),
            r is Ok ==> final(self).pos > old(self).pos,
            r is Err ==> crate::diag::cites_rule(r->Err_0),
            ex_result(r, final(self).pos as int, bin_at(old(self).toks@, old(self).pos as int, old(self).no_struct, 2)),
        decreases old(self).toks@.len() - old(self).pos, 17nat,
    {
        let ghost ts = self.toks@;
        let ghost p0 = self.pos as int;
        let ghost ns = self.no_struct;
        let mut lhs = self.parse_add()?;
        loop
            invariant
                self.step(old(self)),
                self.pos > old(self).pos,
                ts == self.toks@,
                p0 == old(self).pos,
                ns == old(self).no_struct,
                bin_at(ts, p0, ns, 2) == bin_rest(ts, self.pos as int, ex_view(lhs), ns, 2),
            ensures
                self.step(old(self)),
                self.pos > old(self).pos,
                bin_at(ts, p0, ns, 2) == ExParse::Parsed(ex_view(lhs), self.pos as int),
            decreases self.toks@.len() - self.pos,
        {
            let op = match self.compare_op() {
                Some(op) => op,
                None => break,
            };
            let _ = self.bump();
            let rhs = self.parse_add()?;
            let span = lhs.span.merge(rhs.span);
            proof {
                reveal(kind_view);
            }
            lhs = Expr { kind: ExprKind::Bin(op, Box::new(lhs), Box::new(rhs)), span };
        }
        Ok(lhs)
    }

    fn parse_add(&mut self) -> (r: PResult<Expr>)
        requires
            old(self).wf(),
        ensures
            final(self).step(old(self)),
            r is Ok ==> final(self).pos > old(self).pos,
            r is Err ==> crate::diag::cites_rule(r->Err_0),
            ex_result(r, final(self).pos as int, bin_at(old(self).toks@, old(self).pos as int, old(self).no_struct, 1)),
        decreases old(self).toks@.len() - old(self).pos, 16nat,
    {
        let ghost ts = self.toks@;
        let ghost p0 = self.pos as int;
        let ghost ns = self.no_struct;
        let mut lhs = self.parse_mul()?;
        loop
            invariant
                self.step(old(self)),
                self.pos > old(self).pos,
                ts == self.toks@,
                p0 == old(self).pos,
                ns == old(self).no_struct,
                bin_at(ts, p0, ns, 1) == bin_rest(ts, self.pos as int, ex_view(lhs), ns, 1),
            ensures
                self.step(old(self)),
                self.pos > old(self).pos,
                bin_at(ts, p0, ns, 1) == ExParse::Parsed(ex_view(lhs), self.pos as int),
            decreases self.toks@.len() - self.pos,
        {
            let op = match self.add_op() {
                Some(op) => op,
                None => break,
            };
            let _ = self.bump();
            let rhs = self.parse_mul()?;
            let span = lhs.span.merge(rhs.span);
            proof {
                reveal(kind_view);
            }
            lhs = Expr { kind: ExprKind::Bin(op, Box::new(lhs), Box::new(rhs)), span };
        }
        Ok(lhs)
    }

    fn parse_mul(&mut self) -> (r: PResult<Expr>)
        requires
            old(self).wf(),
        ensures
            final(self).step(old(self)),
            r is Ok ==> final(self).pos > old(self).pos,
            r is Err ==> crate::diag::cites_rule(r->Err_0),
            ex_result(r, final(self).pos as int, bin_at(old(self).toks@, old(self).pos as int, old(self).no_struct, 0)),
        decreases old(self).toks@.len() - old(self).pos, 15nat,
    {
        let ghost ts = self.toks@;
        let ghost p0 = self.pos as int;
        let ghost ns = self.no_struct;
        let mut lhs = self.parse_unary()?;
        loop
            invariant
                self.step(old(self)),
                self.pos > old(self).pos,
                ts == self.toks@,
                p0 == old(self).pos,
                ns == old(self).no_struct,
                bin_at(ts, p0, ns, 0) == bin_rest(ts, self.pos as int, ex_view(lhs), ns, 0),
            ensures
                self.step(old(self)),
                self.pos > old(self).pos,
                bin_at(ts, p0, ns, 0) == ExParse::Parsed(ex_view(lhs), self.pos as int),
            decreases self.toks@.len() - self.pos,
        {
            let op = match self.mul_op() {
                Some(op) => op,
                None => break,
            };
            let _ = self.bump();
            let rhs = self.parse_unary()?;
            let span = lhs.span.merge(rhs.span);
            proof {
                reveal(kind_view);
            }
            lhs = Expr { kind: ExprKind::Bin(op, Box::new(lhs), Box::new(rhs)), span };
        }
        Ok(lhs)
    }

    fn parse_unary(&mut self) -> (r: PResult<Expr>)
        requires
            old(self).wf(),
        ensures
            final(self).step(old(self)),
            r is Ok ==> final(self).pos > old(self).pos,
            r is Err ==> crate::diag::cites_rule(r->Err_0),
            ex_result(r, final(self).pos as int, unary_at(old(self).toks@, old(self).pos as int, old(self).no_struct)),
        decreases old(self).toks@.len() - old(self).pos, 14nat,
    {
        let ghost ts = self.toks@;
        let start = self.span();
        proof {
            reveal_strlit("-");
            assert(ts.last() == ts[ts.len() - 1]);
        }
        if self.peek_is(&Tok::Not) {
            let _ = self.bump();
            let inner = self.parse_unary()?;
            let span = start.merge(inner.span);
            proof {
                reveal(kind_view);
            }
            return Ok(Expr { kind: ExprKind::NotOp(Box::new(inner)), span });
        }
        // negative literal, or unary minus
        if self.peek_is(&Tok::Minus) {
            match self.peek_at(1) {
                Tok::Int(v) => {
                    let v = *v;
                    let _ = self.bump();
                    let t = self.bump();
                    proof {
                        reveal(kind_view);
                    }
                    let kind = if v == i64::MIN { ExprKind::Int(v) } else { ExprKind::Int(-v) };
                    return Ok(Expr { kind, span: start.merge(t.span) });
                }
                Tok::Float(f) => {
                    let lit = cat("-", f.as_str());
                    proof {
                        assert("-"@ =~= seq!['-']);
                        assert(lit@ == seq!['-'] + f@);
                        assert(tk(ts, old(self).pos + 1) == TokV::Float(f@));
                    }
                    let _ = self.bump();
                    let t = self.bump();
                    proof {
                        reveal(kind_view);
                    }
                    return Ok(Expr { kind: ExprKind::Float(lit), span: start.merge(t.span) });
                }
                _ => {
                    let _ = self.bump();
                    let inner = self.parse_unary()?;
                    let span = start.merge(inner.span);
                    proof {
                        reveal(kind_view);
                    }
                    return Ok(Expr { kind: ExprKind::NegOp(Box::new(inner)), span });
                }
            }
        }
        self.parse_postfix()
    }

    /// The arguments and `)` of a call of `e`, at the `(`; a call on a bare
    /// constructor is variant construction.
    fn parse_call(&mut self, e: Expr) -> (r: PResult<Expr>)
        requires
            old(self).wf(),
            old(self).cur() is LParen,
        ensures
            final(self).step(old(self)),
            r is Ok ==> final(self).pos > old(self).pos,
            r is Err ==> crate::diag::cites_rule(r->Err_0),
            ex_result(r, final(self).pos as int, call_at(old(self).toks@, old(self).pos as int, ex_view(e))),
        decreases old(self).toks@.len() - old(self).pos, 22nat,
    {
        let ghost ts = self.toks@;
        let ghost q0 = self.pos as int;
        let ghost ev = ex_view(e);
        proof {
            assert(ts.last() == ts[ts.len() - 1]);
        }
        let _ = self.bump();
        let mut args: Vec<Expr> = Vec::new();
        proof {
            assert(exs_view(args@) =~= Seq::<ExprV>::empty());
        }
        if !self.peek_is(&Tok::RParen) {
            loop
                invariant_except_break
                    call_at(ts, q0, ev) == call_args(ts, self.pos as int, exs_view(args@), ev),
                invariant
                    self.step(old(self)),
                    self.pos > old(self).pos,
                    ts == self.toks@,
                    q0 == old(self).pos,
                    ev == ex_view(e),
                    ts.last() == ts[ts.len() - 1],
                ensures
                    self.step(old(self)),
                    self.pos > old(self).pos,
                    ts == self.toks@,
                    ev == ex_view(e),
                    self.cur() == TokV::RParen ==> call_at(ts, q0, ev) == ExParse::Parsed(
                        apply_call(ev, exs_view(args@), merge_spec(ev.span, spn(ts, self.pos as int))),
                        self.pos + 1,
                    ),
                    self.cur() != TokV::RParen ==> call_at(ts, q0, ev) == exp_fail(ts, self.pos as int, "W19"@, "`)`"@),
                decreases self.toks@.len() - self.pos,
            {
                let arg = self.parse_expr_open()?;
                proof {
                    lemma_exs_view_push(args@, arg);
                }
                args.push(arg);
                if !self.eat(&Tok::Comma) {
                    break;
                }
            }
        }
        proof {
            assert(call_at(ts, q0, ev) == if self.cur() == TokV::RParen {
                ExParse::Parsed(
                    apply_call(ev, exs_view(args@), merge_spec(ev.span, spn(ts, self.pos as int))),
                    self.pos + 1,
                )
            } else {
                exp_fail(ts, self.pos as int, "W19"@, "`)`"@)
            });
        }
        let _ = self.expect(Tok::RParen, "`)`", "W19")?;
        let span = e.span.merge(self.prev_span());
        proof {
            assert(span == merge_spec(ev.span, spn(ts, self.pos - 1)));
            reveal(kind_view);
        }
        match e.kind {
            ExprKind::Ctor(name, existing) => if existing.len() == 0 {
                proof {
                    lemma_exs_view_len(existing@);
                }
                Ok(Expr { kind: ExprKind::Ctor(name, args), span })
            } else {
                proof {
                    lemma_exs_view_len(existing@);
                }
                let callee = Expr { kind: ExprKind::Ctor(name, existing), span: e.span };
                Ok(Expr { kind: ExprKind::Call(Box::new(callee), args), span })
            },
            kind => {
                let callee = Expr { kind, span: e.span };
                Ok(Expr { kind: ExprKind::Call(Box::new(callee), args), span })
            },
        }
    }

    /// One postfix operator applied to `e`: a call, a field access or `?`.
    fn parse_postfix_op(&mut self, e: Expr) -> (r: PResult<Expr>)
        requires
            old(self).wf(),
            is_postfix_op(old(self).cur()),
        ensures
            final(self).step(old(self)),
            r is Ok ==> final(self).pos > old(self).pos,
            r is Err ==> crate::diag::cites_rule(r->Err_0),
            ex_result(r, final(self).pos as int, post_one(old(self).toks@, old(self).pos as int, ex_view(e))),
        decreases old(self).toks@.len() - old(self).pos, 23nat,
    {
        let ghost ts = self.toks@;
        proof {
            assert(ts.last() == ts[ts.len() - 1]);
        }
        if self.peek_is(&Tok::LParen) {
            self.parse_call(e)
        } else if self.peek_is(&Tok::Dot) {
            let _ = self.bump();
            let field = self.expect_ident("a field name after `.`", "W11")?;
            let span = e.span.merge(self.prev_span());
            proof {
                assert(kind_view(ExprKind::Field(Box::new(e), field)) == ExV::Field(Box::new(ex_view(e)), field@)) by {
                    reveal(kind_view);
                }
            }
            Ok(Expr { kind: ExprKind::Field(Box::new(e), field), span })
        } else {
            let _ = self.bump();
            let span = e.span.merge(self.prev_span());
            proof {
                assert(kind_view(ExprKind::Propagate(Box::new(e))) == ExV::Propagate(Box::new(ex_view(e)))) by {
                    reveal(kind_view);
                }
            }
            Ok(Expr { kind: ExprKind::Propagate(Box::new(e)), span })
        }
    }

    /// Whether the cursor is at a postfix operator.
    fn at_postfix_op(&self) -> (r: bool)
        requires
            self.wf(),
        ensures
            r == is_postfix_op(self.cur()),
    {
        self.peek_is(&Tok::LParen) || self.peek_is(&Tok::Dot) || self.peek_is(&Tok::Question)
    }

    fn parse_postfix(&mut self) -> (r: PResult<Expr>)
        requires
            old(self).wf(),
        ensures
            final(self).step(old(self)),
            r is Ok ==> final(self).pos > old(self).pos,
            r is Err ==> crate::diag::cites_rule(r->Err_0),
            ex_result(r, final(self).pos as int, postfix_at(old(self).toks@, old(self).pos as int, old(self).no_struct)),
        decreases old(self).toks@.len() - old(self).pos, 13nat,
    {
        let ghost ts = self.toks@;
        let ghost p0 = self.pos as int;
        let ghost ns = self.no_struct;
        let mut e = self.parse_primary()?;
        while self.at_postfix_op()
            invariant
                self.step(old(self)),
                self.pos > old(self).pos,
                ts == self.toks@,
                p0 == old(self).pos,
                ns == old(self).no_struct,
                postfix_at(ts, p0, ns) == post_rest(ts, self.pos as int, ex_view(e)),
            decreases self.toks@.len() - self.pos,
        {
            e = self.parse_postfix_op(e)?;
        }
        Ok(e)
    }
}

} // verus!
