//! Recursive-descent parser for Weft, from a token stream that ends with
//! `Eof` (as the lexer produces it): the cursor, types and patterns, and the
//! whole-source entry point. Expressions are parsed in `parse_ops` and
//! `parse_forms`, top-level forms in `parse_items`.
use vstd::prelude::*;
use crate::ast::{PatKind, Pattern, Program, TypeExpr, float_display, push_float_display};
use crate::diag::{Diag, Span, merge_spec};
use crate::lexer::{Tok, TokV, Token, diag_is, lemma_lex_ordered, lex, lex_spec, tok_copy, tok_eq, tokens_are};
use crate::items::{program_of, program_result};
use crate::text::byte_off;
use crate::text::{cat, cat3, copy_string, i64_text, int_text, owned, push_str};

verus! {

/// How a token is named in a diagnostic.
pub open spec fn describe_spec(t: TokV) -> Seq<char> {
    match t {
        TokV::Ident(s) => seq!['`'] + s + seq!['`'],
        TokV::Upper(s) => seq!['`'] + s + seq!['`'],
        TokV::Int(v) => seq!['`'] + int_text(v) + seq!['`'],
        TokV::Float(f) => seq!['`'] + float_display(f) + seq!['`'],
        TokV::Text(_) => "a Text literal"@,
        TokV::Hole(n) => "hole `?"@ + n + seq!['`'],
        TokV::Def => "`def`"@,
        TokV::Type => "`type`"@,
        TokV::Test => "`test`"@,
        TokV::Let => "`let`"@,
        TokV::If => "`if`"@,
        TokV::Then => "`then`"@,
        TokV::Else => "`else`"@,
        TokV::Match => "`match`"@,
        TokV::Where => "`where`"@,
        TokV::And => "`and`"@,
        TokV::Or => "`or`"@,
        TokV::Not => "`not`"@,
        TokV::True => "`true`"@,
        TokV::False => "`false`"@,
        TokV::UnitLit => "`unit`"@,
        TokV::LParen => "`(`"@,
        TokV::RParen => "`)`"@,
        TokV::LBracket => "`[`"@,
        TokV::RBracket => "`]`"@,
        TokV::LBrace => "`{`"@,
        TokV::RBrace => "`}`"@,
        TokV::Comma => "`,`"@,
        TokV::Semi => "`;`"@,
        TokV::Colon => "`:`"@,
        TokV::Dot => "`.`"@,
        TokV::DotDot => "`..`"@,
        TokV::Arrow => "`->`"@,
        TokV::FatArrow => "`=>`"@,
        TokV::Assign => "`=`"@,
        TokV::EqEq => "`==`"@,
        TokV::Ne => "`!=`"@,
        TokV::Lt => "`<`"@,
        TokV::Le => "`<=`"@,
        TokV::Gt => "`>`"@,
        TokV::Ge => "`>=`"@,
        TokV::Plus => "`+`"@,
        TokV::Minus => "`-`"@,
        TokV::Star => "`*`"@,
        TokV::Slash => "`/`"@,
        TokV::Percent => "`%`"@,
        TokV::PlusPlus => "`++`"@,
        TokV::Question => "`?`"@,
        TokV::Pipe => "`|`"@,
        TokV::Underscore => "`_`"@,
        TokV::Eof => "end of file"@,
    }
}

pub fn describe(tok: &Tok) -> (r: String)
    ensures
        r@ == describe_spec(tok@),
{
    match tok {
        Tok::Ident(s) | Tok::Upper(s) => {
            let r = cat3("`", s.as_str(), "`");
            proof {
                reveal_strlit("`");
            }
            r
        }
        Tok::Int(v) => {
            let t = i64_text(*v);
            let r = cat3("`", t.as_str(), "`");
            proof {
                reveal_strlit("`");
            }
            r
        }
        Tok::Float(f) => {
            let mut r = owned("`");
            let _ = push_float_display(&mut r, f.as_str());
            push_str(&mut r, "`");
            proof {
                reveal_strlit("`");
                assert(r@ =~= seq!['`'] + float_display(f@) + seq!['`']);
            }
            r
        }
        Tok::Text(_) => owned("a Text literal"),
        Tok::Hole(n) => {
            let r = cat3("hole `?", n.as_str(), "`");
            proof {
                reveal_strlit("`");
            }
            r
        }
        Tok::Def => owned("`def`"),
        Tok::Type => owned("`type`"),
        Tok::Test => owned("`test`"),
        Tok::Let => owned("`let`"),
        Tok::If => owned("`if`"),
        Tok::Then => owned("`then`"),
        Tok::Else => owned("`else`"),
        Tok::Match => owned("`match`"),
        Tok::Where => owned("`where`"),
        Tok::And => owned("`and`"),
        Tok::Or => owned("`or`"),
        Tok::Not => owned("`not`"),
        Tok::True => owned("`true`"),
        Tok::False => owned("`false`"),
        Tok::UnitLit => owned("`unit`"),
        Tok::LParen => owned("`(`"),
        Tok::RParen => owned("`)`"),
        Tok::LBracket => owned("`[`"),
        Tok::RBracket => owned("`]`"),
        Tok::LBrace => owned("`{`"),
        Tok::RBrace => owned("`}`"),
        Tok::Comma => owned("`,`"),
        Tok::Semi => owned("`;`"),
        Tok::Colon => owned("`:`"),
        Tok::Dot => owned("`.`"),
        Tok::DotDot => owned("`..`"),
        Tok::Arrow => owned("`->`"),
        Tok::FatArrow => owned("`=>`"),
        Tok::Assign => owned("`=`"),
        Tok::EqEq => owned("`==`"),
        Tok::Ne => owned("`!=`"),
        Tok::Lt => owned("`<`"),
        Tok::Le => owned("`<=`"),
        Tok::Gt => owned("`>`"),
        Tok::Ge => owned("`>=`"),
        Tok::Plus => owned("`+`"),
        Tok::Minus => owned("`-`"),
        Tok::Star => owned("`*`"),
        Tok::Slash => owned("`/`"),
        Tok::Percent => owned("`%`"),
        Tok::PlusPlus => owned("`++`"),
        Tok::Question => owned("`?`"),
        Tok::Pipe => owned("`|`"),
        Tok::Underscore => owned("`_`"),
        Tok::Eof => owned("end of file"),
    }
}

/// A token stream the parser accepts: non-empty, ending with `Eof`.
pub open spec fn tokens_wf(toks: Seq<Token>) -> bool {
    toks.len() > 0 && toks.last().tok is Eof
}

pub struct Parser {
    pub toks: Vec<Token>,
    pub pos: usize,
    /// true while parsing a match scrutinee, where `Upper {` must be read as
    /// the start of match arms, not a nominal-record construction
    pub no_struct: bool,
}

pub type PResult<T> = Result<T, Diag>;

impl Parser {
    /// The cursor is on a token of a well-formed stream.
    pub open spec fn wf(&self) -> bool {
        tokens_wf(self.toks@) && self.pos < self.toks@.len()
    }

    /// Same tokens and mode as `o`, cursor not behind it.
    pub open spec fn step(&self, o: &Parser) -> bool {
        &&& self.toks == o.toks
        &&& self.no_struct == o.no_struct
        &&& o.pos <= self.pos
        &&& self.wf()
    }

    pub open spec fn cur(&self) -> TokV {
        self.toks@[self.pos as int].tok@
    }

    pub fn new(toks: Vec<Token>) -> (p: Parser)
        requires
            tokens_wf(toks@),
        ensures
            p.wf(),
            p.pos == 0,
            p.toks == toks,
            !p.no_struct,
    {
        Parser { toks, pos: 0, no_struct: false }
    }

    pub fn peek(&self) -> (r: &Tok)
        requires
            self.wf(),
        ensures
            r@ == self.cur(),
    {
        &self.toks[self.pos].tok
    }

    /// Whether the cursor is at the end of the stream.
    pub fn at_eof(&self) -> (r: bool)
        requires
            self.wf(),
        ensures
            r == (self.cur() is Eof),
    {
        match self.peek() {
            Tok::Eof => true,
            _ => false,
        }
    }

    pub(crate) fn peek_is(&self, t: &Tok) -> (r: bool)
        requires
            self.wf(),
        ensures
            r == (self.cur() == t@),
    {
        tok_eq(self.peek(), t)
    }

    pub(crate) fn peek_at(&self, off: usize) -> (r: &Tok)
        requires
            self.wf(),
        ensures
            r@ == self.toks@[(if self.pos + off < self.toks@.len() - 1 { self.pos + off } else { self.toks@.len() - 1 }) as int].tok@,
    {
        let last = self.toks.len() - 1;
        let i = if off < last && self.pos < last - off { self.pos + off } else { last };
        &self.toks[i].tok
    }

    pub(crate) fn span(&self) -> (r: Span)
        requires
            self.wf(),
        ensures
            r == self.toks@[self.pos as int].span,
    {
        self.toks[self.pos].span
    }

    pub(crate) fn prev_span(&self) -> (r: Span)
        requires
            self.wf(),
        ensures
            r == self.toks@[(if self.pos > 0 { self.pos - 1 } else { 0 }) as int].span,
    {
        let i = if self.pos > 0 { self.pos - 1 } else { 0 };
        self.toks[i].span
    }

    /// The current token; the cursor moves on unless it is at the end.
    pub(crate) fn bump(&mut self) -> (t: Token)
        requires
            old(self).wf(),
        ensures
            final(self).step(old(self)),
            t.tok@ == old(self).cur(),
            t.span == old(self).toks@[old(self).pos as int].span,
            !(old(self).cur() is Eof) ==> final(self).pos == old(self).pos + 1,
    {
        let t = Token { tok: tok_copy(&self.toks[self.pos].tok), span: self.toks[self.pos].span };
        if self.pos < self.toks.len() - 1 {
            self.pos += 1;
        }
        t
    }

    pub(crate) fn eat(&mut self, tok: &Tok) -> (r: bool)
        requires
            old(self).wf(),
        ensures
            final(self).step(old(self)),
            r == (old(self).cur() == tok@),
            r && !(tok@ is Eof) ==> final(self).pos == old(self).pos + 1,
            !r ==> final(self).pos == old(self).pos,
    {
        if self.peek_is(tok) {
            let _ = self.bump();
            true
        } else {
            false
        }
    }

    pub(crate) fn expect(&mut self, tok: Tok, what: &str, rule: &str) -> (r: PResult<Token>)
        requires
            crate::diag::rule_ids().contains(rule@),
            old(self).wf(),
            !(tok@ is Eof),
        ensures
            final(self).step(old(self)),
            r is Ok <==> old(self).cur() == tok@,
            r is Ok ==> final(self).pos == old(self).pos + 1,
            r is Err ==> final(self).pos == old(self).pos && expected_diag(r->Err_0, rule@, what@, old(self).cur(), old(self).toks@[old(self).pos as int].span),
            r is Err ==> crate::diag::cites_rule(r->Err_0),
    {
        if self.peek_is(&tok) {
            Ok(self.bump())
        } else {
            Err(self.expected_err(what, rule))
        }
    }

    pub(crate) fn expected_err(&self, what: &str, rule: &str) -> (d: Diag)
        requires
            self.wf(),
            crate::diag::rule_ids().contains(rule@),
        ensures
            expected_diag(d, rule@, what@, self.cur(), self.toks@[self.pos as int].span),
    {
        let mut msg = cat("expected ", what);
        push_str(&mut msg, ", found ");
        let dtext = describe(self.peek());
        push_str(&mut msg, dtext.as_str());
        Diag::new(rule, msg, self.span())
    }

    pub(crate) fn expect_ident(&mut self, what: &str, rule: &str) -> (r: PResult<String>)
        requires
            crate::diag::rule_ids().contains(rule@),
            old(self).wf(),
        ensures
            final(self).step(old(self)),
            r is Ok <==> old(self).cur() is Ident,
            r is Ok ==> final(self).pos == old(self).pos + 1 && old(self).cur() == TokV::Ident(r->Ok_0@),
            r is Err ==> final(self).pos == old(self).pos && expected_diag(r->Err_0, rule@, what@, old(self).cur(), old(self).toks@[old(self).pos as int].span),
            r is Err ==> crate::diag::cites_rule(r->Err_0),
    {
        match self.peek() {
            Tok::Ident(s) => {
                let s = copy_string(s);
                let _ = self.bump();
                Ok(s)
            }
            _ => Err(self.expected_err(what, rule)),
        }
    }

    pub(crate) fn expect_upper(&mut self, what: &str, rule: &str) -> (r: PResult<String>)
        requires
            crate::diag::rule_ids().contains(rule@),
            old(self).wf(),
        ensures
            final(self).step(old(self)),
            r is Ok <==> old(self).cur() is Upper,
            r is Ok ==> final(self).pos == old(self).pos + 1 && old(self).cur() == TokV::Upper(r->Ok_0@),
            r is Err ==> final(self).pos == old(self).pos && expected_diag(r->Err_0, rule@, what@, old(self).cur(), old(self).toks@[old(self).pos as int].span),
            r is Err ==> crate::diag::cites_rule(r->Err_0),
    {
        match self.peek() {
            Tok::Upper(s) => {
                let s = copy_string(s);
                let _ = self.bump();
                Ok(s)
            }
            _ => Err(self.expected_err(what, rule)),
        }
    }
}

/// The diagnostic `expected <what>, found <token>` citing `rule` at the
/// token's span.
pub open spec fn expected_diag(d: Diag, rule: Seq<char>, what: Seq<char>, found: TokV, span: Span) -> bool {
    &&& d.rule@ == rule
    &&& d.message@ == "expected "@ + what + ", found "@ + describe_spec(found)
    &&& d.span == span
    &&& d.expected is None
    &&& d.actual is None
    &&& d.hint is None
}


// ---------- what the pattern parser yields ----------

/// The content of a pattern: names and literals as plain values.
pub enum PatV {
    Wildcard,
    Bind(Seq<char>),
    LitInt(int),
    LitFloat(Seq<char>),
    LitBool(bool),
    LitText(Seq<char>),
    Ctor(Seq<char>, Seq<PatternV>),
    List(Seq<PatternV>, Option<Seq<char>>),
}

pub struct PatternV {
    pub kind: PatV,
    pub span: Span,
}

pub open spec fn pat_view(p: Pattern) -> PatternV
    decreases p, 1nat,
{
    PatternV {
        kind: match p.kind {
            PatKind::Wildcard => PatV::Wildcard,
            PatKind::Bind(n) => PatV::Bind(n@),
            PatKind::LitInt(v) => PatV::LitInt(v as int),
            PatKind::LitFloat(f) => PatV::LitFloat(f@),
            PatKind::LitBool(b) => PatV::LitBool(b),
            PatKind::LitText(t) => PatV::LitText(t@),
            PatKind::Ctor(n, subs) => PatV::Ctor(n@, pats_view(subs@)),
            PatKind::List { heads, rest } => PatV::List(
                pats_view(heads@),
                match rest {
                    Some(b) => Some(b@),
                    None => None,
                },
            ),
        },
        span: p.span,
    }
}

pub open spec fn pats_view(ps: Seq<Pattern>) -> Seq<PatternV>
    decreases ps, 0nat,
{
    if ps.len() == 0 {
        seq![]
    } else {
        seq![pat_view(ps[0])] + pats_view(ps.subrange(1, ps.len() as int))
    }
}

pub proof fn lemma_pats_view_push(s: Seq<Pattern>, x: Pattern)
    ensures
        pats_view(s.push(x)) == pats_view(s).push(pat_view(x)),
    decreases s.len(),
{
    if s.len() == 0 {
        let t = s.push(x);
        assert(t[0] == x);
        assert(t.subrange(1, 1) =~= Seq::<Pattern>::empty());
        assert(pats_view(t.subrange(1, 1)) =~= Seq::<PatternV>::empty());
        assert(pats_view(s) =~= Seq::<PatternV>::empty());
        assert(pats_view(t) =~= seq![pat_view(x)]);
    } else {
        assert(s.push(x).subrange(1, s.len() + 1 as int) =~= s.subrange(1, s.len() as int).push(x));
        lemma_pats_view_push(s.subrange(1, s.len() as int), x);
        assert(pats_view(s.push(x)) =~= pats_view(s).push(pat_view(x)));
    }
}

/// A parse error: rule, message and span.
pub struct ErrV {
    pub rule: Seq<char>,
    pub msg: Seq<char>,
    pub span: Span,
}

/// What parsing a pattern from a position gives: the pattern and the
/// position after it, or the error.
pub enum PatParse {
    Parsed(PatternV, int),
    Failed(ErrV),
}

/// `d` is the error `e`, with no expected / actual / hint.
pub open spec fn diag_as(d: Diag, e: ErrV) -> bool {
    &&& d.rule@ == e.rule
    &&& d.message@ == e.msg
    &&& d.span == e.span
    &&& d.expected is None
    &&& d.actual is None
    &&& d.hint is None
}

pub open spec fn expected_err_v(rule: Seq<char>, what: Seq<char>, t: Token) -> ErrV {
    ErrV { rule, msg: "expected "@ + what + ", found "@ + describe_spec(t.tok@), span: t.span }
}

/// The error a token stream without its final `Eof` would give.
pub open spec fn stream_end_err() -> ErrV {
    ErrV { rule: "W9"@, msg: seq![], span: Span { start: 0, end: 0 } }
}

/// A one-token pattern at token `p`.
pub open spec fn pat_one(k: PatV, start: Span, p: int) -> PatParse {
    PatParse::Parsed(PatternV { kind: k, span: start }, p + 1)
}

/// Parse a pattern at token `p`.
pub open spec fn pat_at(ts: Seq<Token>, p: int) -> PatParse
    decreases ts.len() - p, 0nat,
{
    if p < 0 || p + 1 >= ts.len() {
        if 0 <= p < ts.len() {
            PatParse::Failed(ErrV { rule: "W23"@, msg: "expected a pattern, found "@ + describe_spec(ts[p].tok@), span: ts[p].span })
        } else {
            PatParse::Failed(stream_end_err())
        }
    } else {
        let start = ts[p].span;
        match ts[p].tok@ {
            TokV::Underscore => pat_one(PatV::Wildcard, start, p),
            TokV::Ident(n) => pat_one(PatV::Bind(n), start, p),
            TokV::Int(v) => pat_one(PatV::LitInt(v), start, p),
            TokV::Minus => match ts[p + 1].tok@ {
                TokV::Int(v) => PatParse::Parsed(
                    PatternV { kind: PatV::LitInt(if v == i64::MIN { v } else { -v }), span: merge_spec(start, ts[p + 1].span) },
                    p + 2,
                ),
                TokV::Float(f) => PatParse::Parsed(
                    PatternV { kind: PatV::LitFloat(seq!['-'] + f), span: merge_spec(start, ts[p + 1].span) },
                    p + 2,
                ),
                _ => PatParse::Failed(ErrV { rule: "W23"@, msg: "`-` in a pattern may only prefix a number literal"@, span: start }),
            },
            TokV::Float(f) => pat_one(PatV::LitFloat(f), start, p),
            TokV::Text(t) => pat_one(PatV::LitText(t), start, p),
            TokV::True => pat_one(PatV::LitBool(true), start, p),
            TokV::False => pat_one(PatV::LitBool(false), start, p),
            TokV::Upper(n) => if ts[p + 1].tok@ == TokV::LParen {
                if p + 2 < ts.len() {
                    pat_args(ts, p + 2, seq![], n, start)
                } else {
                    PatParse::Failed(stream_end_err())
                }
            } else {
                pat_one(PatV::Ctor(n, seq![]), start, p)
            },
            TokV::LBracket => if ts[p + 1].tok@ == TokV::RBracket {
                PatParse::Parsed(PatternV { kind: PatV::List(seq![], None), span: merge_spec(start, ts[p + 1].span) }, p + 2)
            } else {
                pat_list(ts, p + 1, seq![], start)
            },
            _ => PatParse::Failed(ErrV { rule: "W23"@, msg: "expected a pattern, found "@ + describe_spec(ts[p].tok@), span: start }),
        }
    }
}

/// The sub-patterns of a constructor pattern from token `q` on, after `acc`.
pub open spec fn pat_args(ts: Seq<Token>, q: int, acc: Seq<PatternV>, n: Seq<char>, start: Span) -> PatParse
    decreases ts.len() - q, 1nat,
{
    if q < 0 || q >= ts.len() {
        PatParse::Failed(stream_end_err())
    } else {
        match pat_at(ts, q) {
            PatParse::Failed(e) => PatParse::Failed(e),
            PatParse::Parsed(v, q2) => if q2 <= q || q2 >= ts.len() {
                PatParse::Failed(stream_end_err())
            } else if ts[q2].tok@ == TokV::Comma {
                pat_args(ts, q2 + 1, acc.push(v), n, start)
            } else if ts[q2].tok@ == TokV::RParen {
                PatParse::Parsed(PatternV { kind: PatV::Ctor(n, acc.push(v)), span: merge_spec(start, ts[q2].span) }, q2 + 1)
            } else {
                PatParse::Failed(expected_err_v("W23"@, "`)`"@, ts[q2]))
            },
        }
    }
}

/// The end of a list pattern: `]` at token `q`.
pub open spec fn pat_list_close(ts: Seq<Token>, q: int, heads: Seq<PatternV>, rest: Option<Seq<char>>, start: Span) -> PatParse {
    if 0 <= q < ts.len() && ts[q].tok@ == TokV::RBracket {
        PatParse::Parsed(PatternV { kind: PatV::List(heads, rest), span: merge_spec(start, ts[q].span) }, q + 1)
    } else if 0 <= q < ts.len() {
        PatParse::Failed(expected_err_v("W23"@, "`]`"@, ts[q]))
    } else {
        PatParse::Failed(stream_end_err())
    }
}

/// The elements of a list pattern from token `q` on, after `heads`.
pub open spec fn pat_list(ts: Seq<Token>, q: int, heads: Seq<PatternV>, start: Span) -> PatParse
    decreases ts.len() - q, 1nat,
{
    if q < 0 || q >= ts.len() {
        PatParse::Failed(stream_end_err())
    } else if ts[q].tok@ == TokV::DotDot {
        if q + 1 >= ts.len() {
            PatParse::Failed(stream_end_err())
        } else if ts[q + 1].tok@ == TokV::Underscore {
            pat_list_close(ts, q + 2, heads, Some("_"@), start)
        } else {
            match ts[q + 1].tok@ {
                TokV::Ident(b) => pat_list_close(ts, q + 2, heads, Some(b), start),
                _ => PatParse::Failed(expected_err_v("W23"@, "a binder (or `_`) after `..`"@, ts[q + 1])),
            }
        }
    } else {
        match pat_at(ts, q) {
            PatParse::Failed(e) => PatParse::Failed(e),
            PatParse::Parsed(v, q2) => if q2 <= q || q2 >= ts.len() {
                PatParse::Failed(stream_end_err())
            } else if ts[q2].tok@ == TokV::Comma {
                pat_list(ts, q2 + 1, heads.push(v), start)
            } else {
                pat_list_close(ts, q2, heads.push(v), None, start)
            },
        }
    }
}

// ---------- what the type parser yields ----------

/// The content of a type expression: names as plain values.
pub enum TypeV {
    Name(Seq<char>, Seq<TypeV>, Span),
    Record(Seq<(Seq<char>, TypeV)>, Span),
    Fn(Seq<TypeV>, Box<TypeV>, Span),
}

pub open spec fn te_view(te: TypeExpr) -> TypeV
    decreases te, 1nat,
{
    match te {
        TypeExpr::Name(n, args, s) => TypeV::Name(n@, tes_view(args@), s),
        TypeExpr::Record(fs, s) => TypeV::Record(tfields_view(fs@), s),
        TypeExpr::Fn(args, ret, s) => TypeV::Fn(tes_view(args@), Box::new(te_view(*ret)), s),
    }
}

pub open spec fn tes_view(ts: Seq<TypeExpr>) -> Seq<TypeV>
    decreases ts, 0nat,
{
    if ts.len() == 0 {
        seq![]
    } else {
        seq![te_view(ts[0])] + tes_view(ts.subrange(1, ts.len() as int))
    }
}

pub open spec fn tfields_view(fs: Seq<(String, TypeExpr)>) -> Seq<(Seq<char>, TypeV)>
    decreases fs, 0nat,
{
    if fs.len() == 0 {
        seq![]
    } else {
        seq![(fs[0].0@, te_view(fs[0].1))] + tfields_view(fs.subrange(1, fs.len() as int))
    }
}

pub proof fn lemma_tes_view_push(s: Seq<TypeExpr>, x: TypeExpr)
    ensures
        tes_view(s.push(x)) == tes_view(s).push(te_view(x)),
    decreases s.len(),
{
    let t = s.push(x);
    if s.len() == 0 {
        assert(t[0] == x);
        assert(t.subrange(1, 1) =~= Seq::<TypeExpr>::empty());
        assert(tes_view(t.subrange(1, 1)) =~= Seq::<TypeV>::empty());
        assert(tes_view(s) =~= Seq::<TypeV>::empty());
        assert(tes_view(t) =~= seq![te_view(x)]);
    } else {
        assert(t.subrange(1, s.len() + 1 as int) =~= s.subrange(1, s.len() as int).push(x));
        lemma_tes_view_push(s.subrange(1, s.len() as int), x);
        assert(tes_view(t) =~= tes_view(s).push(te_view(x)));
    }
}

pub proof fn lemma_tfields_view_push(s: Seq<(String, TypeExpr)>, x: (String, TypeExpr))
    ensures
        tfields_view(s.push(x)) == tfields_view(s).push((x.0@, te_view(x.1))),
    decreases s.len(),
{
    let t = s.push(x);
    if s.len() == 0 {
        assert(t[0] == x);
        assert(t.subrange(1, 1) =~= Seq::<(String, TypeExpr)>::empty());
        assert(tfields_view(t.subrange(1, 1)) =~= Seq::<(Seq<char>, TypeV)>::empty());
        assert(tfields_view(s) =~= Seq::<(Seq<char>, TypeV)>::empty());
        assert(tfields_view(t) =~= seq![(x.0@, te_view(x.1))]);
    } else {
        assert(t.subrange(1, s.len() + 1 as int) =~= s.subrange(1, s.len() as int).push(x));
        lemma_tfields_view_push(s.subrange(1, s.len() as int), x);
        assert(tfields_view(t) =~= tfields_view(s).push((x.0@, te_view(x.1))));
    }
}

/// What parsing a type from a position gives: the type and the position
/// after it, or the error.
pub enum TyParse {
    Parsed(TypeV, int),
    Failed(ErrV),
}

/// Parse a type at token `p`.
pub open spec fn ty_at(ts: Seq<Token>, p: int) -> TyParse
    decreases ts.len() - p, 0nat,
{
    if p < 0 || p + 1 >= ts.len() {
        if 0 <= p < ts.len() {
            TyParse::Failed(ErrV { rule: "W9"@, msg: "expected a type, found "@ + describe_spec(ts[p].tok@), span: ts[p].span })
        } else {
            TyParse::Failed(stream_end_err())
        }
    } else {
        let start = ts[p].span;
        match ts[p].tok@ {
            TokV::Upper(n) => if ts[p + 1].tok@ == TokV::LBracket {
                if p + 2 < ts.len() {
                    ty_args(ts, p + 2, seq![], n, start)
                } else {
                    TyParse::Failed(stream_end_err())
                }
            } else {
                TyParse::Parsed(TypeV::Name(n, seq![], merge_spec(start, ts[p].span)), p + 1)
            },
            TokV::LBrace => if ts[p + 1].tok@ == TokV::RBrace {
                TyParse::Parsed(TypeV::Record(seq![], merge_spec(start, ts[p + 1].span)), p + 2)
            } else {
                ty_fields(ts, p + 1, seq![], start)
            },
            TokV::LParen => if ts[p + 1].tok@ == TokV::RParen {
                ty_fn_tail(ts, p + 1, seq![], start)
            } else {
                ty_fnargs(ts, p + 1, seq![], start)
            },
            _ => TyParse::Failed(ErrV { rule: "W9"@, msg: "expected a type, found "@ + describe_spec(ts[p].tok@), span: start }),
        }
    }
}

/// The type arguments of a named type from token `q` on, after `acc`.
pub open spec fn ty_args(ts: Seq<Token>, q: int, acc: Seq<TypeV>, n: Seq<char>, start: Span) -> TyParse
    decreases ts.len() - q, 1nat,
{
    if q < 0 || q >= ts.len() {
        TyParse::Failed(stream_end_err())
    } else {
        match ty_at(ts, q) {
            TyParse::Failed(e) => TyParse::Failed(e),
            TyParse::Parsed(v, q2) => if q2 <= q || q2 >= ts.len() {
                TyParse::Failed(stream_end_err())
            } else if ts[q2].tok@ == TokV::Comma {
                ty_args(ts, q2 + 1, acc.push(v), n, start)
            } else if ts[q2].tok@ == TokV::RBracket {
                TyParse::Parsed(TypeV::Name(n, acc.push(v), merge_spec(start, ts[q2].span)), q2 + 1)
            } else {
                TyParse::Failed(expected_err_v("W9"@, "`]`"@, ts[q2]))
            },
        }
    }
}

/// The closing `}` of a record type at token `q`.
pub open spec fn ty_fields_close(ts: Seq<Token>, q: int, acc: Seq<(Seq<char>, TypeV)>, start: Span) -> TyParse {
    if 0 <= q < ts.len() && ts[q].tok@ == TokV::RBrace {
        TyParse::Parsed(TypeV::Record(acc, merge_spec(start, ts[q].span)), q + 1)
    } else if 0 <= q < ts.len() {
        TyParse::Failed(expected_err_v("W11"@, "`}`"@, ts[q]))
    } else {
        TyParse::Failed(stream_end_err())
    }
}

/// The fields of a record type from token `q` on, after `acc`.
pub open spec fn ty_fields(ts: Seq<Token>, q: int, acc: Seq<(Seq<char>, TypeV)>, start: Span) -> TyParse
    decreases ts.len() - q, 1nat,
{
    if q < 0 || q + 2 >= ts.len() {
        if 0 <= q < ts.len() && !(ts[q].tok@ is Ident) {
            TyParse::Failed(expected_err_v("W11"@, "a field name"@, ts[q]))
        } else if 0 <= q && q + 1 < ts.len() && ts[q + 1].tok@ != TokV::Colon {
            TyParse::Failed(expected_err_v("W11"@, "`:`"@, ts[q + 1]))
        } else {
            TyParse::Failed(stream_end_err())
        }
    } else {
        match ts[q].tok@ {
            TokV::Ident(f) => if ts[q + 1].tok@ != TokV::Colon {
                TyParse::Failed(expected_err_v("W11"@, "`:`"@, ts[q + 1]))
            } else {
                match ty_at(ts, q + 2) {
                    TyParse::Failed(e) => TyParse::Failed(e),
                    TyParse::Parsed(v, q2) => if q2 <= q + 2 || q2 >= ts.len() {
                        TyParse::Failed(stream_end_err())
                    } else if ts[q2].tok@ == TokV::Comma {
                        if q2 + 1 < ts.len() && ts[q2 + 1].tok@ == TokV::RBrace {
                            ty_fields_close(ts, q2 + 1, acc.push((f, v)), start)
                        } else {
                            ty_fields(ts, q2 + 1, acc.push((f, v)), start)
                        }
                    } else {
                        ty_fields_close(ts, q2, acc.push((f, v)), start)
                    },
                }
            },
            _ => TyParse::Failed(expected_err_v("W11"@, "a field name"@, ts[q])),
        }
    }
}

/// The parameter types of a function type from token `q` on, after `acc`.
pub open spec fn ty_fnargs(ts: Seq<Token>, q: int, acc: Seq<TypeV>, start: Span) -> TyParse
    decreases ts.len() - q, 1nat,
{
    if q < 0 || q >= ts.len() {
        TyParse::Failed(stream_end_err())
    } else {
        match ty_at(ts, q) {
            TyParse::Failed(e) => TyParse::Failed(e),
            TyParse::Parsed(v, q2) => if q2 <= q || q2 >= ts.len() {
                TyParse::Failed(stream_end_err())
            } else if ts[q2].tok@ == TokV::Comma {
                ty_fnargs(ts, q2 + 1, acc.push(v), start)
            } else {
                ty_fn_tail(ts, q2, acc.push(v), start)
            },
        }
    }
}

/// `) -> R` of a function type at token `q`.
pub open spec fn ty_fn_tail(ts: Seq<Token>, q: int, args: Seq<TypeV>, start: Span) -> TyParse
    decreases ts.len() - q, 1nat,
{
    if q < 0 || q >= ts.len() {
        TyParse::Failed(stream_end_err())
    } else if ts[q].tok@ != TokV::RParen {
        TyParse::Failed(expected_err_v("W10"@, "`)`"@, ts[q]))
    } else if q + 1 >= ts.len() {
        TyParse::Failed(stream_end_err())
    } else if ts[q + 1].tok@ != TokV::Arrow {
        TyParse::Failed(expected_err_v("W10"@, "`->` in a function type"@, ts[q + 1]))
    } else if q + 2 >= ts.len() {
        TyParse::Failed(stream_end_err())
    } else {
        match ty_at(ts, q + 2) {
            TyParse::Failed(e) => TyParse::Failed(e),
            TyParse::Parsed(r, q3) => if q3 <= q + 2 || q3 > ts.len() {
                TyParse::Failed(stream_end_err())
            } else {
                TyParse::Parsed(TypeV::Fn(args, Box::new(r), merge_spec(start, ts[q3 - 1].span)), q3)
            },
        }
    }
}

/// `r`, with the cursor at `pos` after it, is the parse `s`.
pub open spec fn ty_result(r: PResult<TypeExpr>, pos: int, s: TyParse) -> bool {
    match (r, s) {
        (Ok(t), TyParse::Parsed(v, q)) => te_view(t) == v && pos == q,
        (Err(d), TyParse::Failed(e)) => diag_as(d, e),
        _ => false,
    }
}

/// `r`, with the cursor at `pos` after it, is the parse `s`.
pub open spec fn pat_result(r: PResult<Pattern>, pos: int, s: PatParse) -> bool {
    match (r, s) {
        (Ok(p), PatParse::Parsed(v, q)) => pat_view(p) == v && pos == q,
        (Err(d), PatParse::Failed(e)) => diag_as(d, e),
        _ => false,
    }
}

impl Parser {
    pub(crate) fn peek_describe(&self) -> (r: String)
        requires
            self.wf(),
        ensures
            r@ == describe_spec(self.cur()),
    {
        describe(self.peek())
    }

    // ---- types ----

    pub fn parse_type(&mut self) -> (r: PResult<TypeExpr>)
        requires
            old(self).wf(),
        ensures
            final(self).step(old(self)),
            r is Ok ==> final(self).pos > old(self).pos,
            r is Err ==> crate::diag::cites_rule(r->Err_0),
            ty_result(r, final(self).pos as int, ty_at(old(self).toks@, old(self).pos as int)),
        decreases old(self).toks@.len() - old(self).pos,
    {
        let ghost ts = self.toks@;
        let ghost p0 = self.pos as int;
        let start = self.span();
        proof {
            reveal_strlit("");
            assert(ts.last() == ts[ts.len() - 1]);
        }
        match self.peek() {
            Tok::Upper(n) => {
                let name = copy_string(n);
                let _ = self.bump();
                let mut args: Vec<TypeExpr> = Vec::new();
                if self.eat(&Tok::LBracket) {
                    proof {
                        assert(tes_view(args@) =~= Seq::<TypeV>::empty());
                    }
                    loop
                        invariant
                            self.step(old(self)),
                            self.pos > old(self).pos,
                            ts == self.toks@,
                            p0 == old(self).pos,
                            ty_at(ts, p0) == ty_args(ts, self.pos as int, tes_view(args@), name@, start),
                        decreases self.toks@.len() - self.pos,
                    {
                        let a = self.parse_type()?;
                        proof {
                            lemma_tes_view_push(args@, a);
                        }
                        args.push(a);
                        if !self.eat(&Tok::Comma) {
                            let _ = self.expect(Tok::RBracket, "`]`", "W9")?;
                            return Ok(TypeExpr::Name(name, args, start.merge(self.prev_span())));
                        }
                    }
                }
                proof {
                    assert(tes_view(args@) =~= Seq::<TypeV>::empty());
                }
                Ok(TypeExpr::Name(name, args, start.merge(self.prev_span())))
            }
            Tok::LBrace => {
                let _ = self.bump();
                let mut fields: Vec<(String, TypeExpr)> = Vec::new();
                if !self.peek_is(&Tok::RBrace) {
                    proof {
                        assert(tfields_view(fields@) =~= Seq::<(Seq<char>, TypeV)>::empty());
                    }
                    loop
                        invariant
                            self.step(old(self)),
                            self.pos > old(self).pos,
                            ts == self.toks@,
                            p0 == old(self).pos,
                            ty_at(ts, p0) == ty_fields(ts, self.pos as int, tfields_view(fields@), start),
                        decreases self.toks@.len() - self.pos,
                    {
                        let fname = self.expect_ident("a field name", "W11")?;
                        let _ = self.expect(Tok::Colon, "`:`", "W11")?;
                        let fty = self.parse_type()?;
                        proof {
                            lemma_tfields_view_push(fields@, (fname, fty));
                        }
                        fields.push((fname, fty));
                        if !self.eat(&Tok::Comma) || self.peek_is(&Tok::RBrace) {
                            let _ = self.expect(Tok::RBrace, "`}`", "W11")?;
                            return Ok(TypeExpr::Record(fields, start.merge(self.prev_span())));
                        }
                    }
                }
                let _ = self.expect(Tok::RBrace, "`}`", "W11")?;
                proof {
                    assert(tfields_view(fields@) =~= Seq::<(Seq<char>, TypeV)>::empty());
                }
                Ok(TypeExpr::Record(fields, start.merge(self.prev_span())))
            }
            Tok::LParen => {
                // function type `(A, B) -> C`
                let _ = self.bump();
                let mut args: Vec<TypeExpr> = Vec::new();
                proof {
                    assert(tes_view(args@) =~= Seq::<TypeV>::empty());
                }
                if !self.peek_is(&Tok::RParen) {
                    loop
                        invariant_except_break
                            ty_at(ts, p0) == ty_fnargs(ts, self.pos as int, tes_view(args@), start),
                        invariant
                            self.step(old(self)),
                            self.pos > old(self).pos,
                            ts == self.toks@,
                            p0 == old(self).pos,
                        ensures
                            self.step(old(self)),
                            self.pos > old(self).pos,
                            ts == self.toks@,
                            ty_at(ts, p0) == ty_fn_tail(ts, self.pos as int, tes_view(args@), start),
                        decreases self.toks@.len() - self.pos,
                    {
                        let a = self.parse_type()?;
                        proof {
                            lemma_tes_view_push(args@, a);
                        }
                        args.push(a);
                        if !self.eat(&Tok::Comma) {
                            break;
                        }
                    }
                }
                let _ = self.expect(Tok::RParen, "`)`", "W10")?;
                let _ = self.expect(Tok::Arrow, "`->` in a function type", "W10")?;
                let ret = self.parse_type()?;
                Ok(TypeExpr::Fn(args, Box::new(ret), start.merge(self.prev_span())))
            }
            _ => {
                let d = self.peek_describe();
                Err(Diag::new("W9", cat3("expected a type, found ", d.as_str(), ""), start))
            }
        }
    }
}

impl Parser {
    // ---- patterns ----

    pub fn parse_pattern(&mut self) -> (r: PResult<Pattern>)
        requires
            old(self).wf(),
        ensures
            final(self).step(old(self)),
            r is Ok ==> final(self).pos > old(self).pos,
            r is Err ==> crate::diag::cites_rule(r->Err_0),
            pat_result(r, final(self).pos as int, pat_at(old(self).toks@, old(self).pos as int)),
        decreases old(self).toks@.len() - old(self).pos,
    {
        let ghost ts = self.toks@;
        let ghost p0 = self.pos as int;
        let start = self.span();
        proof {
            reveal_strlit("");
            reveal_strlit("-");
            reveal_strlit("_");
            assert(ts.last() == ts[ts.len() - 1]);
        }
        match self.peek() {
            Tok::Underscore => {
                let _ = self.bump();
                Ok(Pattern { kind: PatKind::Wildcard, span: start })
            }
            Tok::Ident(n) => {
                let n = copy_string(n);
                let _ = self.bump();
                Ok(Pattern { kind: PatKind::Bind(n), span: start })
            }
            Tok::Int(v) => {
                let v = *v;
                let _ = self.bump();
                Ok(Pattern { kind: PatKind::LitInt(v), span: start })
            }
            Tok::Minus => match self.peek_at(1) {
                Tok::Int(v) => {
                    let v = *v;
                    let _ = self.bump();
                    let t = self.bump();
                    let val = if v == i64::MIN { v } else { -v };
                    Ok(Pattern { kind: PatKind::LitInt(val), span: start.merge(t.span) })
                }
                Tok::Float(f) => {
                    let lit = cat("-", f.as_str());
                    proof {
                        reveal_strlit("-");
                        assert("-"@ =~= seq!['-']);
                        assert(lit@ == seq!['-'] + f@);
                        assert(ts[p0 + 1].tok@ == TokV::Float(f@));
                    }
                    proof {
                        reveal_strlit("-");
                        assert("-"@ =~= seq!['-']);
                        assert(lit@ == seq!['-'] + f@);
                        assert(ts[p0 + 1].tok@ == TokV::Float(f@));
                    }
                    let _ = self.bump();
                    let t = self.bump();
                    Ok(Pattern { kind: PatKind::LitFloat(lit), span: start.merge(t.span) })
                }
                _ => Err(Diag::new("W23", owned("`-` in a pattern may only prefix a number literal"), start)),
            },
            Tok::Float(f) => {
                let f = copy_string(f);
                let _ = self.bump();
                Ok(Pattern { kind: PatKind::LitFloat(f), span: start })
            }
            Tok::Text(s) => {
                let s = copy_string(s);
                let _ = self.bump();
                Ok(Pattern { kind: PatKind::LitText(s), span: start })
            }
            Tok::True => {
                let _ = self.bump();
                Ok(Pattern { kind: PatKind::LitBool(true), span: start })
            }
            Tok::False => {
                let _ = self.bump();
                Ok(Pattern { kind: PatKind::LitBool(false), span: start })
            }
            Tok::Upper(n) => {
                let name = copy_string(n);
                let _ = self.bump();
                let mut sub: Vec<Pattern> = Vec::new();
                if self.eat(&Tok::LParen) {
                    proof {
                        assert(pats_view(sub@) =~= Seq::<PatternV>::empty());
                    }
                    loop
                        invariant
                            self.step(old(self)),
                            self.pos > old(self).pos,
                            ts == self.toks@,
                            p0 == old(self).pos,
                            pat_at(ts, p0) == pat_args(ts, self.pos as int, pats_view(sub@), name@, start),
                        decreases self.toks@.len() - self.pos,
                    {
                        let ghost q = self.pos as int;
                        let p = self.parse_pattern()?;
                        let ghost pv = pat_view(p);
                        proof {
                            lemma_pats_view_push(sub@, p);
                        }
                        sub.push(p);
                        if !self.eat(&Tok::Comma) {
                            let _ = self.expect(Tok::RParen, "`)`", "W23")?;
                            let span = start.merge(self.prev_span());
                            return Ok(Pattern { kind: PatKind::Ctor(name, sub), span });
                        }
                    }
                }
                let span = start.merge(self.prev_span());
                Ok(Pattern { kind: PatKind::Ctor(name, sub), span })
            }
            Tok::LBracket => {
                let _ = self.bump();
                let mut heads: Vec<Pattern> = Vec::new();
                if !self.peek_is(&Tok::RBracket) {
                    proof {
                        assert(pats_view(heads@) =~= Seq::<PatternV>::empty());
                    }
                    loop
                        invariant
                            self.step(old(self)),
                            self.pos > old(self).pos,
                            ts == self.toks@,
                            p0 == old(self).pos,
                            pat_at(ts, p0) == pat_list(ts, self.pos as int, pats_view(heads@), start),
                        decreases self.toks@.len() - self.pos,
                    {
                        if self.peek_is(&Tok::DotDot) {
                            let _ = self.bump();
                            let binder = if self.eat(&Tok::Underscore) {
                                owned("_")
                            } else {
                                self.expect_ident("a binder (or `_`) after `..`", "W23")?
                            };
                            let _ = self.expect(Tok::RBracket, "`]`", "W23")?;
                            let span = start.merge(self.prev_span());
                            return Ok(Pattern { kind: PatKind::List { heads, rest: Some(binder) }, span });
                        }
                        let h = self.parse_pattern()?;
                        proof {
                            lemma_pats_view_push(heads@, h);
                        }
                        heads.push(h);
                        if !self.eat(&Tok::Comma) {
                            let _ = self.expect(Tok::RBracket, "`]`", "W23")?;
                            let span = start.merge(self.prev_span());
                            return Ok(Pattern { kind: PatKind::List { heads, rest: None }, span });
                        }
                    }
                }
                let _ = self.expect(Tok::RBracket, "`]`", "W23")?;
                let span = start.merge(self.prev_span());
                Ok(Pattern { kind: PatKind::List { heads, rest: None }, span })
            }
            _ => {
                let d = self.peek_describe();
                Err(Diag::new("W23", cat3("expected a pattern, found ", d.as_str(), ""), start))
            }
        }
    }
}


/// Lexes and parses a whole program; a lexing error is the lexer's
/// diagnostic.
pub fn parse_source(src: &str) -> (r: PResult<Program>)
    requires
        byte_off(src@, src@.len() as int) < usize::MAX,
    ensures
        lex_spec(src@) is Fail ==> (r matches Err(d) && diag_is(d, lex_spec(src@)->Fail_0, src@)),
        lex_spec(src@) is Toks ==> exists|ts: Seq<Token>, pos: int|
            tokens_are(ts, lex_spec(src@)->Toks_0, src@) && program_result(r, pos, program_of(ts, false)),
        r is Err ==> crate::diag::cites_rule(r->Err_0),
{
    match lex(src) {
        Ok(toks) => {
            proof {
                lemma_lex_ordered(src@);
                assert(toks@.last() == toks@[toks@.len() - 1]);
            }
            let ghost ts = toks@;
            let mut p = Parser::new(toks);
            let r = p.parse_program();
            proof {
                assert(tokens_are(ts, lex_spec(src@)->Toks_0, src@) && program_result(r, p.pos as int, program_of(ts, false)));
            }
            r
        },
        Err(d) => Err(d),
    }
}

} // verus!
