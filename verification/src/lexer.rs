//! Lexer: source text to tokens with byte spans.
use vstd::prelude::*;
use crate::diag::{Diag, Span, json_esc, json_short_escape, read_json_string};
use crate::lines::first_nl;
use crate::text::{
    byte_off, char_utf8_len, chars_of, copy_string, digit_val, is_alnum, is_alnum_c, is_digit,
    is_digit_c, is_lower, is_lower_c, is_upper, is_upper_c, lemma_byte_off_mono, owned, push_char,
    push_str, str_eq,
};

verus! {

/// A token kind, with its payload for names, literals and holes.
#[derive(Debug, Clone)]
pub enum Tok {
    Ident(String),
    Upper(String),
    Int(i64),
    Float(String),
    Text(String),
    Hole(String),
    Def,
    Type,
    Test,
    Let,
    If,
    Then,
    Else,
    Match,
    Where,
    And,
    Or,
    Not,
    True,
    False,
    UnitLit,
    LParen,
    RParen,
    LBracket,
    RBracket,
    LBrace,
    RBrace,
    Comma,
    Semi,
    Colon,
    Dot,
    DotDot,
    Arrow,
    FatArrow,
    Assign,
    EqEq,
    Ne,
    Lt,
    Le,
    Gt,
    Ge,
    Plus,
    Minus,
    Star,
    Slash,
    Percent,
    PlusPlus,
    Question,
    Pipe,
    Underscore,
    Eof,
}

/// The mathematical content of a token: texts as character sequences.
pub enum TokV {
    Ident(Seq<char>),
    Upper(Seq<char>),
    Int(int),
    Float(Seq<char>),
    Text(Seq<char>),
    Hole(Seq<char>),
    Def,
    Type,
    Test,
    Let,
    If,
    Then,
    Else,
    Match,
    Where,
    And,
    Or,
    Not,
    True,
    False,
    UnitLit,
    LParen,
    RParen,
    LBracket,
    RBracket,
    LBrace,
    RBrace,
    Comma,
    Semi,
    Colon,
    Dot,
    DotDot,
    Arrow,
    FatArrow,
    Assign,
    EqEq,
    Ne,
    Lt,
    Le,
    Gt,
    Ge,
    Plus,
    Minus,
    Star,
    Slash,
    Percent,
    PlusPlus,
    Question,
    Pipe,
    Underscore,
    Eof,
}

impl View for Tok {
    type V = TokV;

    open spec fn view(&self) -> TokV {
        match self {
            Tok::Ident(x) => TokV::Ident(x@),
            Tok::Upper(x) => TokV::Upper(x@),
            Tok::Int(x) => TokV::Int(x as int),
            Tok::Float(x) => TokV::Float(x@),
            Tok::Text(x) => TokV::Text(x@),
            Tok::Hole(x) => TokV::Hole(x@),
            Tok::Def => TokV::Def,
            Tok::Type => TokV::Type,
            Tok::Test => TokV::Test,
            Tok::Let => TokV::Let,
            Tok::If => TokV::If,
            Tok::Then => TokV::Then,
            Tok::Else => TokV::Else,
            Tok::Match => TokV::Match,
            Tok::Where => TokV::Where,
            Tok::And => TokV::And,
            Tok::Or => TokV::Or,
            Tok::Not => TokV::Not,
            Tok::True => TokV::True,
            Tok::False => TokV::False,
            Tok::UnitLit => TokV::UnitLit,
            Tok::LParen => TokV::LParen,
            Tok::RParen => TokV::RParen,
            Tok::LBracket => TokV::LBracket,
            Tok::RBracket => TokV::RBracket,
            Tok::LBrace => TokV::LBrace,
            Tok::RBrace => TokV::RBrace,
            Tok::Comma => TokV::Comma,
            Tok::Semi => TokV::Semi,
            Tok::Colon => TokV::Colon,
            Tok::Dot => TokV::Dot,
            Tok::DotDot => TokV::DotDot,
            Tok::Arrow => TokV::Arrow,
            Tok::FatArrow => TokV::FatArrow,
            Tok::Assign => TokV::Assign,
            Tok::EqEq => TokV::EqEq,
            Tok::Ne => TokV::Ne,
            Tok::Lt => TokV::Lt,
            Tok::Le => TokV::Le,
            Tok::Gt => TokV::Gt,
            Tok::Ge => TokV::Ge,
            Tok::Plus => TokV::Plus,
            Tok::Minus => TokV::Minus,
            Tok::Star => TokV::Star,
            Tok::Slash => TokV::Slash,
            Tok::Percent => TokV::Percent,
            Tok::PlusPlus => TokV::PlusPlus,
            Tok::Question => TokV::Question,
            Tok::Pipe => TokV::Pipe,
            Tok::Underscore => TokV::Underscore,
            Tok::Eof => TokV::Eof,
        }
    }
}

/// Token equality, payloads compared by content.
pub fn tok_eq(a: &Tok, b: &Tok) -> (r: bool)
    ensures
        r == (a@ == b@),
{
    match (a, b) {
        (Tok::Ident(x), Tok::Ident(y)) => str_eq(x.as_str(), y.as_str()),
        (Tok::Upper(x), Tok::Upper(y)) => str_eq(x.as_str(), y.as_str()),
        (Tok::Int(x), Tok::Int(y)) => *x == *y,
        (Tok::Float(x), Tok::Float(y)) => str_eq(x.as_str(), y.as_str()),
        (Tok::Text(x), Tok::Text(y)) => str_eq(x.as_str(), y.as_str()),
        (Tok::Hole(x), Tok::Hole(y)) => str_eq(x.as_str(), y.as_str()),
        (Tok::Def, Tok::Def) => true,
        (Tok::Type, Tok::Type) => true,
        (Tok::Test, Tok::Test) => true,
        (Tok::Let, Tok::Let) => true,
        (Tok::If, Tok::If) => true,
        (Tok::Then, Tok::Then) => true,
        (Tok::Else, Tok::Else) => true,
        (Tok::Match, Tok::Match) => true,
        (Tok::Where, Tok::Where) => true,
        (Tok::And, Tok::And) => true,
        (Tok::Or, Tok::Or) => true,
        (Tok::Not, Tok::Not) => true,
        (Tok::True, Tok::True) => true,
        (Tok::False, Tok::False) => true,
        (Tok::UnitLit, Tok::UnitLit) => true,
        (Tok::LParen, Tok::LParen) => true,
        (Tok::RParen, Tok::RParen) => true,
        (Tok::LBracket, Tok::LBracket) => true,
        (Tok::RBracket, Tok::RBracket) => true,
        (Tok::LBrace, Tok::LBrace) => true,
        (Tok::RBrace, Tok::RBrace) => true,
        (Tok::Comma, Tok::Comma) => true,
        (Tok::Semi, Tok::Semi) => true,
        (Tok::Colon, Tok::Colon) => true,
        (Tok::Dot, Tok::Dot) => true,
        (Tok::DotDot, Tok::DotDot) => true,
        (Tok::Arrow, Tok::Arrow) => true,
        (Tok::FatArrow, Tok::FatArrow) => true,
        (Tok::Assign, Tok::Assign) => true,
        (Tok::EqEq, Tok::EqEq) => true,
        (Tok::Ne, Tok::Ne) => true,
        (Tok::Lt, Tok::Lt) => true,
        (Tok::Le, Tok::Le) => true,
        (Tok::Gt, Tok::Gt) => true,
        (Tok::Ge, Tok::Ge) => true,
        (Tok::Plus, Tok::Plus) => true,
        (Tok::Minus, Tok::Minus) => true,
        (Tok::Star, Tok::Star) => true,
        (Tok::Slash, Tok::Slash) => true,
        (Tok::Percent, Tok::Percent) => true,
        (Tok::PlusPlus, Tok::PlusPlus) => true,
        (Tok::Question, Tok::Question) => true,
        (Tok::Pipe, Tok::Pipe) => true,
        (Tok::Underscore, Tok::Underscore) => true,
        (Tok::Eof, Tok::Eof) => true,
        _ => false,
    }
}

/// A copy of a token.
pub fn tok_copy(a: &Tok) -> (r: Tok)
    ensures
        r@ == a@,
{
    match a {
        Tok::Ident(x) => Tok::Ident(copy_string(x)),
        Tok::Upper(x) => Tok::Upper(copy_string(x)),
        Tok::Int(x) => Tok::Int(*x),
        Tok::Float(x) => Tok::Float(copy_string(x)),
        Tok::Text(x) => Tok::Text(copy_string(x)),
        Tok::Hole(x) => Tok::Hole(copy_string(x)),
        Tok::Def => Tok::Def,
        Tok::Type => Tok::Type,
        Tok::Test => Tok::Test,
        Tok::Let => Tok::Let,
        Tok::If => Tok::If,
        Tok::Then => Tok::Then,
        Tok::Else => Tok::Else,
        Tok::Match => Tok::Match,
        Tok::Where => Tok::Where,
        Tok::And => Tok::And,
        Tok::Or => Tok::Or,
        Tok::Not => Tok::Not,
        Tok::True => Tok::True,
        Tok::False => Tok::False,
        Tok::UnitLit => Tok::UnitLit,
        Tok::LParen => Tok::LParen,
        Tok::RParen => Tok::RParen,
        Tok::LBracket => Tok::LBracket,
        Tok::RBracket => Tok::RBracket,
        Tok::LBrace => Tok::LBrace,
        Tok::RBrace => Tok::RBrace,
        Tok::Comma => Tok::Comma,
        Tok::Semi => Tok::Semi,
        Tok::Colon => Tok::Colon,
        Tok::Dot => Tok::Dot,
        Tok::DotDot => Tok::DotDot,
        Tok::Arrow => Tok::Arrow,
        Tok::FatArrow => Tok::FatArrow,
        Tok::Assign => Tok::Assign,
        Tok::EqEq => Tok::EqEq,
        Tok::Ne => Tok::Ne,
        Tok::Lt => Tok::Lt,
        Tok::Le => Tok::Le,
        Tok::Gt => Tok::Gt,
        Tok::Ge => Tok::Ge,
        Tok::Plus => Tok::Plus,
        Tok::Minus => Tok::Minus,
        Tok::Star => Tok::Star,
        Tok::Slash => Tok::Slash,
        Tok::Percent => Tok::Percent,
        Tok::PlusPlus => Tok::PlusPlus,
        Tok::Question => Tok::Question,
        Tok::Pipe => Tok::Pipe,
        Tok::Underscore => Tok::Underscore,
        Tok::Eof => Tok::Eof,
    }
}

pub open spec fn keyword(w: Seq<char>) -> Option<TokV> {
    if w == "def"@ {
        Some(TokV::Def)
    } else if w == "type"@ {
        Some(TokV::Type)
    } else if w == "test"@ {
        Some(TokV::Test)
    } else if w == "let"@ {
        Some(TokV::Let)
    } else if w == "if"@ {
        Some(TokV::If)
    } else if w == "then"@ {
        Some(TokV::Then)
    } else if w == "else"@ {
        Some(TokV::Else)
    } else if w == "match"@ {
        Some(TokV::Match)
    } else if w == "where"@ {
        Some(TokV::Where)
    } else if w == "and"@ {
        Some(TokV::And)
    } else if w == "or"@ {
        Some(TokV::Or)
    } else if w == "not"@ {
        Some(TokV::Not)
    } else if w == "true"@ {
        Some(TokV::True)
    } else if w == "false"@ {
        Some(TokV::False)
    } else if w == "unit"@ {
        Some(TokV::UnitLit)
    } else if w == "_"@ {
        Some(TokV::Underscore)
    } else {
        None
    }
}

fn keyword_tok(w: &str) -> (r: Option<Tok>)
    ensures
        opt_tok_view(r) == keyword(w@),
{
    if str_eq(w, "def") {
        Some(Tok::Def)
    } else if str_eq(w, "type") {
        Some(Tok::Type)
    } else if str_eq(w, "test") {
        Some(Tok::Test)
    } else if str_eq(w, "let") {
        Some(Tok::Let)
    } else if str_eq(w, "if") {
        Some(Tok::If)
    } else if str_eq(w, "then") {
        Some(Tok::Then)
    } else if str_eq(w, "else") {
        Some(Tok::Else)
    } else if str_eq(w, "match") {
        Some(Tok::Match)
    } else if str_eq(w, "where") {
        Some(Tok::Where)
    } else if str_eq(w, "and") {
        Some(Tok::And)
    } else if str_eq(w, "or") {
        Some(Tok::Or)
    } else if str_eq(w, "not") {
        Some(Tok::Not)
    } else if str_eq(w, "true") {
        Some(Tok::True)
    } else if str_eq(w, "false") {
        Some(Tok::False)
    } else if str_eq(w, "unit") {
        Some(Tok::UnitLit)
    } else if str_eq(w, "_") {
        Some(Tok::Underscore)
    } else {
        None
    }
}

pub open spec fn two_char(a: char, b: char) -> Option<TokV> {
    if a == '-' && b == '>' {
        Some(TokV::Arrow)
    } else if a == '=' && b == '>' {
        Some(TokV::FatArrow)
    } else if a == '=' && b == '=' {
        Some(TokV::EqEq)
    } else if a == '!' && b == '=' {
        Some(TokV::Ne)
    } else if a == '<' && b == '=' {
        Some(TokV::Le)
    } else if a == '>' && b == '=' {
        Some(TokV::Ge)
    } else if a == '+' && b == '+' {
        Some(TokV::PlusPlus)
    } else if a == '.' && b == '.' {
        Some(TokV::DotDot)
    } else {
        None
    }
}

fn two_char_tok(a: char, b: char) -> (r: Option<Tok>)
    ensures
        opt_tok_view(r) == two_char(a, b),
{
    if a == '-' && b == '>' {
        Some(Tok::Arrow)
    } else if a == '=' && b == '>' {
        Some(Tok::FatArrow)
    } else if a == '=' && b == '=' {
        Some(Tok::EqEq)
    } else if a == '!' && b == '=' {
        Some(Tok::Ne)
    } else if a == '<' && b == '=' {
        Some(Tok::Le)
    } else if a == '>' && b == '=' {
        Some(Tok::Ge)
    } else if a == '+' && b == '+' {
        Some(Tok::PlusPlus)
    } else if a == '.' && b == '.' {
        Some(Tok::DotDot)
    } else {
        None
    }
}

pub open spec fn one_char(c: char) -> Option<TokV> {
    if c == '(' {
        Some(TokV::LParen)
    } else if c == ')' {
        Some(TokV::RParen)
    } else if c == '[' {
        Some(TokV::LBracket)
    } else if c == ']' {
        Some(TokV::RBracket)
    } else if c == '{' {
        Some(TokV::LBrace)
    } else if c == '}' {
        Some(TokV::RBrace)
    } else if c == ',' {
        Some(TokV::Comma)
    } else if c == ';' {
        Some(TokV::Semi)
    } else if c == ':' {
        Some(TokV::Colon)
    } else if c == '.' {
        Some(TokV::Dot)
    } else if c == '=' {
        Some(TokV::Assign)
    } else if c == '<' {
        Some(TokV::Lt)
    } else if c == '>' {
        Some(TokV::Gt)
    } else if c == '+' {
        Some(TokV::Plus)
    } else if c == '-' {
        Some(TokV::Minus)
    } else if c == '*' {
        Some(TokV::Star)
    } else if c == '/' {
        Some(TokV::Slash)
    } else if c == '%' {
        Some(TokV::Percent)
    } else if c == '?' {
        Some(TokV::Question)
    } else if c == '|' {
        Some(TokV::Pipe)
    } else {
        None
    }
}

fn one_char_tok(c: char) -> (r: Option<Tok>)
    ensures
        opt_tok_view(r) == one_char(c),
{
    if c == '(' {
        Some(Tok::LParen)
    } else if c == ')' {
        Some(Tok::RParen)
    } else if c == '[' {
        Some(Tok::LBracket)
    } else if c == ']' {
        Some(Tok::RBracket)
    } else if c == '{' {
        Some(Tok::LBrace)
    } else if c == '}' {
        Some(Tok::RBrace)
    } else if c == ',' {
        Some(Tok::Comma)
    } else if c == ';' {
        Some(Tok::Semi)
    } else if c == ':' {
        Some(Tok::Colon)
    } else if c == '.' {
        Some(Tok::Dot)
    } else if c == '=' {
        Some(Tok::Assign)
    } else if c == '<' {
        Some(Tok::Lt)
    } else if c == '>' {
        Some(Tok::Gt)
    } else if c == '+' {
        Some(Tok::Plus)
    } else if c == '-' {
        Some(Tok::Minus)
    } else if c == '*' {
        Some(Tok::Star)
    } else if c == '/' {
        Some(Tok::Slash)
    } else if c == '%' {
        Some(Tok::Percent)
    } else if c == '?' {
        Some(Tok::Question)
    } else if c == '|' {
        Some(Tok::Pipe)
    } else {
        None
    }
}

pub open spec fn opt_tok_view(o: Option<Tok>) -> Option<TokV> {
    match o {
        Some(t) => Some(t@),
        None => None,
    }
}

/// A token with its byte span in the source.
#[derive(Debug, Clone)]
pub struct Token {
    pub tok: Tok,
    pub span: Span,
}

pub open spec fn is_ident_c(c: char) -> bool {
    is_alnum_c(c) || c == '_'
}

/// Whitespace between tokens, including a UTF-8 byte-order mark.
pub open spec fn is_ws(c: char) -> bool {
    c == ' ' || c == '\t' || c == '\r' || c == '\n' || c == '\u{feff}'
}

/// End of the run of identifier characters starting at `i`.
pub open spec fn ident_end(cs: Seq<char>, i: int) -> int
    decreases cs.len() - i,
{
    if i < 0 || i >= cs.len() || !is_ident_c(cs[i]) {
        i
    } else {
        ident_end(cs, i + 1)
    }
}

/// End of the run of decimal digits starting at `i`.
pub open spec fn digits_end(cs: Seq<char>, i: int) -> int
    decreases cs.len() - i,
{
    if i < 0 || i >= cs.len() || !is_digit_c(cs[i]) {
        i
    } else {
        digits_end(cs, i + 1)
    }
}

/// The value of a string of decimal digits.
pub open spec fn dec_val(s: Seq<char>) -> nat
    decreases s.len(),
{
    if s.len() == 0 {
        0
    } else {
        dec_val(s.drop_last()) * 10 + digit_val(s.last())
    }
}

/// The character an escape `\c` stands for in a Text literal.
pub open spec fn unescape(c: char) -> Option<char> {
    if c == 'n' {
        Some('\n')
    } else if c == 't' {
        Some('\t')
    } else if c == '"' {
        Some('"')
    } else if c == '\\' {
        Some('\\')
    } else {
        None
    }
}

/// Each escape of a Text literal stands for the character whose JSON escape
/// it is: `\n` a line feed, `\t` a tab, `\"` a quote, `\\` a backslash.
pub proof fn lemma_unescape_is_json(c: char)
    ensures
        unescape(c) matches Some(d) ==> json_esc(d) == seq!['\\', c] && json_short_escape(c) == d,
{
}

/// A closed Text literal body reads exactly as the contents of a JSON string
/// literal: the same decoded text, ending at the same closing quote.
pub proof fn lemma_text_scan_reads_as_json(cs: Seq<char>, k: int)
    requires
        text_scan(cs, k) is Closed,
    ensures
        read_json_string(cs.subrange(k, cs.len() as int)) == Some(
            (text_scan(cs, k)->Closed_0, cs.subrange(text_scan(cs, k)->Closed_1, cs.len() as int)),
        ),
    decreases cs.len() - k,
{
    let s = cs.subrange(k, cs.len() as int);
    assert(s[0] == cs[k]);
    if cs[k] == '"' {
        assert(s.skip(1) =~= cs.subrange(k + 1, cs.len() as int));
    } else if cs[k] == '\\' {
        let d = unescape(cs[k + 1])->0;
        lemma_text_scan_reads_as_json(cs, k + 2);
        assert(s[1] == cs[k + 1]);
        assert(s.skip(2) =~= cs.subrange(k + 2, cs.len() as int));
        assert(json_short_escape(s[1]) == d);
    } else {
        lemma_text_scan_reads_as_json(cs, k + 1);
        assert(s.skip(1) =~= cs.subrange(k + 1, cs.len() as int));
    }
}

/// Outcome of reading a Text literal's body.
pub enum TextScan {
    /// decoded content, index just after the closing quote
    Closed(Seq<char>, int),
    /// index where reading stopped: end of line, end of input, or a final `\`
    Unterminated(int),
    /// index of a backslash followed by an unknown escape
    BadEscape(int),
}

pub open spec fn scan_cons(c: char, r: TextScan) -> TextScan {
    match r {
        TextScan::Closed(t, j) => TextScan::Closed(seq![c] + t, j),
        other => other,
    }
}

pub open spec fn scan_prefix(p: Seq<char>, r: TextScan) -> TextScan {
    match r {
        TextScan::Closed(t, j) => TextScan::Closed(p + t, j),
        other => other,
    }
}

/// Reads a Text literal body from index `k` (just after the opening quote).
pub open spec fn text_scan(cs: Seq<char>, k: int) -> TextScan
    decreases cs.len() - k,
{
    if k < 0 || k >= cs.len() {
        TextScan::Unterminated(k)
    } else if cs[k] == '"' {
        TextScan::Closed(seq![], k + 1)
    } else if cs[k] == '\\' {
        if k + 1 >= cs.len() {
            TextScan::Unterminated(k)
        } else {
            match unescape(cs[k + 1]) {
                Some(d) => scan_cons(d, text_scan(cs, k + 2)),
                None => TextScan::BadEscape(k),
            }
        }
    } else if cs[k] == '\n' {
        TextScan::Unterminated(k)
    } else {
        scan_cons(cs[k], text_scan(cs, k + 1))
    }
}

/// A lexical error: rule, message, character range, optional hint.
pub struct LexErr {
    pub rule: Seq<char>,
    pub msg: Seq<char>,
    pub start: int,
    pub end: int,
    pub hint: Option<Seq<char>>,
}

/// One step of the lexer at character index `i`.
pub enum Step {
    Skip(int),
    Emit(TokV, int, int),
    Fail(LexErr),
}

pub open spec fn escape_hint() -> Seq<char> {
    seq!['v', 'a', 'l', 'i', 'd', ' ', 'e', 's', 'c', 'a', 'p', 'e', 's', ' ', 'a', 'r', 'e', ' ', '\\', 'n', ',', ' ',
        '\\', 't', ',', ' ', '\\', '"', ',', ' ', '\\', '\\']
}

pub open spec fn step(cs: Seq<char>, i: int) -> Step {
    let c = cs[i];
    if is_ws(c) {
        Step::Skip(i + 1)
    } else if c == '#' {
        Step::Skip(first_nl(cs, i))
    } else if is_lower_c(c) || c == '_' {
        let j = ident_end(cs, i);
        let w = cs.subrange(i, j);
        Step::Emit(
            match keyword(w) {
                Some(k) => k,
                None => TokV::Ident(w),
            },
            i,
            j,
        )
    } else if is_upper_c(c) {
        let j = ident_end(cs, i);
        Step::Emit(TokV::Upper(cs.subrange(i, j)), i, j)
    } else if is_digit_c(c) {
        let d = digits_end(cs, i);
        if d + 1 < cs.len() && cs[d] == '.' && is_digit_c(cs[d + 1]) {
            let e = digits_end(cs, d + 1);
            Step::Emit(TokV::Float(cs.subrange(i, e)), i, e)
        } else if dec_val(cs.subrange(i, d)) <= i64::MAX {
            Step::Emit(TokV::Int(dec_val(cs.subrange(i, d)) as int), i, d)
        } else {
            Step::Fail(LexErr {
                rule: "W6"@,
                msg: "integer literal `"@ + cs.subrange(i, d) + "` out of range"@,
                start: i,
                end: d,
                hint: None,
            })
        }
    } else if c == '"' {
        match text_scan(cs, i + 1) {
            TextScan::Closed(t, j) => Step::Emit(TokV::Text(t), i, j),
            TextScan::Unterminated(j) => Step::Fail(LexErr {
                rule: "W6"@,
                msg: "unterminated Text literal"@,
                start: i,
                end: j,
                hint: None,
            }),
            TextScan::BadEscape(k) => Step::Fail(LexErr {
                rule: "W6"@,
                msg: "unknown escape `\\"@ + seq![cs[k + 1]] + "` in Text literal"@,
                start: k,
                end: k + 2,
                hint: Some(escape_hint()),
            }),
        }
    } else if c == '?' && i + 1 < cs.len() && (is_lower_c(cs[i + 1]) || cs[i + 1] == '_') {
        let j = ident_end(cs, i + 1);
        Step::Emit(TokV::Hole(cs.subrange(i + 1, j)), i, j)
    } else if i + 1 < cs.len() && two_char(c, cs[i + 1]) is Some {
        Step::Emit(two_char(c, cs[i + 1]).unwrap(), i, i + 2)
    } else if one_char(c) is Some {
        Step::Emit(one_char(c).unwrap(), i, i + 1)
    } else {
        Step::Fail(LexErr {
            rule: "W4"@,
            msg: "unexpected character `"@ + seq![c] + "`"@,
            start: i,
            end: i + 1,
            hint: None,
        })
    }
}

pub proof fn lemma_ident_end(cs: Seq<char>, i: int)
    requires
        0 <= i <= cs.len(),
    ensures
        i <= ident_end(cs, i) <= cs.len(),
        i < cs.len() && is_ident_c(cs[i]) ==> i < ident_end(cs, i),
        forall|k: int| i <= k < ident_end(cs, i) ==> is_ident_c(cs[k]),
        ident_end(cs, i) < cs.len() ==> !is_ident_c(cs[ident_end(cs, i)]),
    decreases cs.len() - i,
{
    if i < cs.len() && is_ident_c(cs[i]) {
        lemma_ident_end(cs, i + 1);
    }
}

pub proof fn lemma_digits_end(cs: Seq<char>, i: int)
    requires
        0 <= i <= cs.len(),
    ensures
        i <= digits_end(cs, i) <= cs.len(),
        i < cs.len() && is_digit_c(cs[i]) ==> i < digits_end(cs, i),
        forall|k: int| i <= k < digits_end(cs, i) ==> is_digit_c(cs[k]),
        digits_end(cs, i) < cs.len() ==> !is_digit_c(cs[digits_end(cs, i)]),
    decreases cs.len() - i,
{
    if i < cs.len() && is_digit_c(cs[i]) {
        lemma_digits_end(cs, i + 1);
    }
}

/// A Text token holds what the literal's body reads as, taken as the
/// contents of a JSON string, and ends just after the closing quote.
pub proof fn lemma_text_token_reads_as_json(cs: Seq<char>, i: int)
    requires
        0 <= i < cs.len(),
        step(cs, i) matches Step::Emit(TokV::Text(_), _, _),
    ensures
        cs[i] == '"',
        ({
            let (t, j) = match step(cs, i) {
                Step::Emit(TokV::Text(t), _, j) => (t, j),
                _ => (seq![], 0),
            };
            read_json_string(cs.subrange(i + 1, cs.len() as int)) == Some((t, cs.subrange(j, cs.len() as int)))
        }),
{
    assert(cs[i] == '"');
    lemma_text_scan_reads_as_json(cs, i + 1);
}

pub proof fn lemma_text_scan(cs: Seq<char>, k: int)
    requires
        0 <= k <= cs.len(),
    ensures
        match text_scan(cs, k) {
            TextScan::Closed(_, j) => k < j <= cs.len(),
            TextScan::Unterminated(j) => k <= j <= cs.len(),
            TextScan::BadEscape(p) => k <= p && p + 2 <= cs.len(),
        },
    decreases cs.len() - k,
{
    if k < cs.len() && cs[k] != '"' && cs[k] != '\n' {
        if cs[k] == '\\' {
            if k + 1 < cs.len() && unescape(cs[k + 1]) is Some {
                lemma_text_scan(cs, k + 2);
            }
        } else {
            lemma_text_scan(cs, k + 1);
        }
    }
}

/// Every step makes progress and stays inside the text.
pub proof fn lemma_step(cs: Seq<char>, i: int)
    requires
        0 <= i < cs.len(),
    ensures
        match step(cs, i) {
            Step::Skip(j) => i < j <= cs.len(),
            Step::Emit(_, s, e) => s == i && i < e <= cs.len(),
            Step::Fail(err) => 0 <= err.start <= err.end <= cs.len(),
        },
{
    crate::lines::lemma_first_nl(cs, i);
    lemma_ident_end(cs, i);
    lemma_digits_end(cs, i);
    if i + 1 <= cs.len() {
        lemma_ident_end(cs, i + 1);
        lemma_text_scan(cs, i + 1);
    }
    let d = digits_end(cs, i);
    if d + 1 < cs.len() {
        lemma_digits_end(cs, d + 1);
    }
    if cs[i] == '#' {
        assert(first_nl(cs, i) == first_nl(cs, i + 1));
        crate::lines::lemma_first_nl(cs, i + 1);
    }
}

/// Result of lexing: tokens with character ranges, or the first error.
pub enum LexOut {
    Toks(Seq<(TokV, int, int)>),
    Fail(LexErr),
}

pub open spec fn lex_prefix(p: Seq<(TokV, int, int)>, r: LexOut) -> LexOut {
    match r {
        LexOut::Toks(ts) => LexOut::Toks(p + ts),
        LexOut::Fail(e) => LexOut::Fail(e),
    }
}

/// The tokens of `cs` from index `i` on, ending with `Eof` at the end of
/// the text, or the first lexical error.
pub open spec fn lex_from(cs: Seq<char>, i: int) -> LexOut
    decreases cs.len() - i,
{
    if i < 0 || i >= cs.len() {
        LexOut::Toks(seq![(TokV::Eof, cs.len() as int, cs.len() as int)])
    } else {
        proof {
            lemma_step(cs, i);
        }
        match step(cs, i) {
            Step::Skip(j) => lex_from(cs, j),
            Step::Emit(t, s, e) => lex_prefix(seq![(t, s, e)], lex_from(cs, e)),
            Step::Fail(err) => LexOut::Fail(err),
        }
    }
}

/// Every lexical error cites a numbered rule.
pub proof fn lemma_lex_error_rule(cs: Seq<char>, i: int)
    requires
        0 <= i <= cs.len(),
    ensures
        lex_from(cs, i) is Fail ==> crate::diag::rule_ids().contains(lex_from(cs, i)->Fail_0.rule),
    decreases cs.len() - i,
{
    if i < cs.len() {
        lemma_step(cs, i);
        match step(cs, i) {
            Step::Skip(j) => lemma_lex_error_rule(cs, j),
            Step::Emit(t, s, e) => lemma_lex_error_rule(cs, e),
            Step::Fail(err) => {},
        }
    }
}

pub open spec fn byte_span(cs: Seq<char>, s: int, e: int) -> Span {
    Span { start: byte_off(cs, s) as usize, end: byte_off(cs, e) as usize }
}

pub open spec fn opt_seq(o: Option<String>) -> Option<Seq<char>> {
    match o {
        Some(s) => Some(s@),
        None => None,
    }
}

/// `d` is the lexical error `e` with its range in bytes.
pub open spec fn diag_is(d: Diag, e: LexErr, cs: Seq<char>) -> bool {
    &&& d.rule@ == e.rule
    &&& d.message@ == e.msg
    &&& d.span == byte_span(cs, e.start, e.end)
    &&& d.expected is None
    &&& d.actual is None
    &&& opt_seq(d.hint) == e.hint
}

/// `ts` are the tokens `g` with their ranges in bytes.
pub open spec fn tokens_are(ts: Seq<Token>, g: Seq<(TokV, int, int)>, cs: Seq<char>) -> bool {
    &&& ts.len() == g.len()
    &&& forall|k: int| 0 <= k < ts.len() ==> (#[trigger] ts[k]).tok@ == g[k].0 && ts[k].span
        == byte_span(cs, g[k].1, g[k].2)
}

/// What lexing `cs` yields: the token stream or the first error.
pub open spec fn lex_spec(cs: Seq<char>) -> LexOut {
    lex_from(cs, 0)
}

/// `g` lists tokens in source order, each non-empty and starting at or
/// after `i`, with no overlap, ending with `Eof` at index `n`.
pub open spec fn toks_ordered(g: Seq<(TokV, int, int)>, i: int, n: int) -> bool {
    &&& g.len() >= 1
    &&& g.last() == (TokV::Eof, n, n)
    &&& i <= g[0].1
    &&& forall|k: int|
        0 <= k < g.len() - 1 ==> i <= #[trigger] g[k].1 < g[k].2 && g[k].2 <= g[k + 1].1
}

proof fn lemma_lex_from_ordered(cs: Seq<char>, i: int)
    requires
        0 <= i <= cs.len(),
    ensures
        lex_from(cs, i) is Toks ==> toks_ordered(lex_from(cs, i)->Toks_0, i, cs.len() as int),
    decreases cs.len() - i,
{
    if i < cs.len() {
        lemma_step(cs, i);
        match step(cs, i) {
            Step::Skip(j) => {
                lemma_lex_from_ordered(cs, j);
            }
            Step::Emit(t, s, e) => {
                lemma_lex_from_ordered(cs, e);
                if lex_from(cs, e) is Toks {
                    let rest = lex_from(cs, e)->Toks_0;
                    let g = seq![(t, s, e)] + rest;
                    assert(g.last() == rest.last());
                    assert forall|k: int| 0 <= k < g.len() - 1 implies i <= #[trigger] g[k].1 < g[k].2
                        && g[k].2 <= g[k + 1].1 by {
                        if k > 0 {
                            assert(g[k] == rest[k - 1]);
                            assert(g[k + 1] == rest[k]);
                        }
                    }
                }
            }
            Step::Fail(_) => {}
        }
    }
}

/// Lexing yields tokens in source order, each non-empty and none
/// overlapping another, and the stream ends with `Eof` at the end of the
/// text.
pub proof fn lemma_lex_ordered(cs: Seq<char>)
    ensures
        lex_spec(cs) is Toks ==> toks_ordered(lex_spec(cs)->Toks_0, 0, cs.len() as int),
{
    lemma_lex_from_ordered(cs, 0);
}

fn ident_end_at(cs: &[char], i: usize) -> (j: usize)
    requires
        i <= cs@.len(),
    ensures
        j == ident_end(cs@, i as int),
{
    let mut j = i;
    while j < cs.len() && (is_alnum(cs[j]) || cs[j] == '_')
        invariant
            i <= j <= cs@.len(),
            ident_end(cs@, i as int) == ident_end(cs@, j as int),
        decreases cs.len() - j,
    {
        j += 1;
    }
    j
}

fn digits_end_at(cs: &[char], i: usize) -> (j: usize)
    requires
        i <= cs@.len(),
    ensures
        j == digits_end(cs@, i as int),
{
    let mut j = i;
    while j < cs.len() && is_digit(cs[j])
        invariant
            i <= j <= cs@.len(),
            digits_end(cs@, i as int) == digits_end(cs@, j as int),
        decreases cs.len() - j,
    {
        j += 1;
    }
    j
}

fn slice_string(cs: &[char], s: usize, e: usize) -> (r: String)
    requires
        s <= e <= cs@.len(),
    ensures
        r@ == cs@.subrange(s as int, e as int),
{
    let mut r = String::new();
    let mut k = s;
    while k < e
        invariant
            s <= k <= e,
            e <= cs@.len(),
            r@ == cs@.subrange(s as int, k as int),
        decreases e - k,
    {
        push_char(&mut r, cs[k]);
        k += 1;
        assert(r@ =~= cs@.subrange(s as int, k as int));
    }
    r
}

pub proof fn lemma_dec_val_grows(s: Seq<char>, c: char)
    requires
        is_digit_c(c),
    ensures
        dec_val(s.push(c)) == dec_val(s) * 10 + digit_val(c),
        dec_val(s.push(c)) >= dec_val(s),
{
    assert(s.push(c).drop_last() =~= s);
}

pub proof fn lemma_dec_val_stays_big(cs: Seq<char>, s: int, j: int, e: int)
    requires
        0 <= s <= j <= e <= cs.len(),
        forall|q: int| s <= q < e ==> is_digit_c(#[trigger] cs[q]),
        dec_val(cs.subrange(s, j)) > i64::MAX,
    ensures
        dec_val(cs.subrange(s, e)) > i64::MAX,
    decreases e - j,
{
    if j < e {
        assert(cs.subrange(s, j + 1) =~= cs.subrange(s, j).push(cs[j]));
        lemma_dec_val_grows(cs.subrange(s, j), cs[j]);
        lemma_dec_val_stays_big(cs, s, j + 1, e);
    }
}

/// Value of the digits `cs[s..e]` when it fits in `i64`.
fn digits_value(cs: &[char], s: usize, e: usize) -> (r: Option<i64>)
    requires
        s <= e <= cs@.len(),
        forall|k: int| s <= k < e ==> is_digit_c(#[trigger] cs@[k]),
    ensures
        match r {
            Some(v) => dec_val(cs@.subrange(s as int, e as int)) <= i64::MAX && v as int == dec_val(
                cs@.subrange(s as int, e as int),
            ),
            None => dec_val(cs@.subrange(s as int, e as int)) > i64::MAX,
        },
{
    let mut v: u64 = 0;
    let mut k = s;
    assert(cs@.subrange(s as int, s as int) =~= Seq::<char>::empty());
    while k < e
        invariant
            s <= k <= e,
            e <= cs@.len(),
            forall|q: int| s <= q < e ==> is_digit_c(#[trigger] cs@[q]),
            v as int == dec_val(cs@.subrange(s as int, k as int)),
            v <= i64::MAX,
        decreases e - k,
    {
        let d = (cs[k] as u32 - '0' as u32) as u64;
        proof {
            assert(cs@.subrange(s as int, k + 1) =~= cs@.subrange(s as int, k as int).push(cs@[k as int]));
            lemma_dec_val_grows(cs@.subrange(s as int, k as int), cs@[k as int]);
        }
        if v > 922337203685477580u64 || (v == 922337203685477580u64 && d > 7) {
            proof {
                lemma_dec_val_stays_big(cs@, s as int, k + 1, e as int);
            }
            return None;
        }
        v = v * 10 + d;
        k += 1;
    }
    Some(v as i64)
}

fn decode_escape(c: char) -> (r: Option<char>)
    ensures
        r == unescape(c),
{
    if c == 'n' {
        Some('\n')
    } else if c == 't' {
        Some('\t')
    } else if c == '"' {
        Some('"')
    } else if c == '\\' {
        Some('\\')
    } else {
        None
    }
}

/// Exec form of a text-literal scan: 0 closed, 1 unterminated, 2 bad escape.
fn scan_text(cs: &[char], k0: usize) -> (r: (u8, String, usize))
    requires
        k0 <= cs@.len(),
    ensures
        match text_scan(cs@, k0 as int) {
            TextScan::Closed(t, j) => r.0 == 0 && r.1@ == t && r.2 == j,
            TextScan::Unterminated(j) => r.0 == 1 && r.2 == j,
            TextScan::BadEscape(p) => r.0 == 2 && r.2 == p,
        },
{
    let mut out = String::new();
    let mut k = k0;
    assert(scan_prefix(seq![], text_scan(cs@, k0 as int)) =~= text_scan(cs@, k0 as int));
    while k < cs.len()
        invariant
            k0 <= k <= cs@.len(),
            text_scan(cs@, k0 as int) == scan_prefix(out@, text_scan(cs@, k as int)),
        decreases cs.len() - k,
    {
        let ch = cs[k];
        if ch == '"' {
            return (0, out, k + 1);
        }
        if ch == '\\' {
            if k + 1 >= cs.len() {
                return (1, out, k);
            }
            match decode_escape(cs[k + 1]) {
                Some(d) => {
                    proof {
                        let r = text_scan(cs@, k + 2);
                        assert(scan_prefix(out@, scan_cons(d, r)) == scan_prefix(out@.push(d), r)) by {
                            match r {
                                TextScan::Closed(t, j) => {
                                    assert(out@ + (seq![d] + t) =~= out@.push(d) + t);
                                }
                                _ => {}
                            }
                        }
                    }
                    push_char(&mut out, d);
                    k += 2;
                }
                None => {
                    return (2, out, k);
                }
            }
        } else {
            if ch == '\n' {
                return (1, out, k);
            }
            proof {
                let r = text_scan(cs@, k + 1);
                assert(scan_prefix(out@, scan_cons(ch, r)) == scan_prefix(out@.push(ch), r)) by {
                    match r {
                        TextScan::Closed(t, j) => {
                            assert(out@ + (seq![ch] + t) =~= out@.push(ch) + t);
                        }
                        _ => {}
                    }
                }
            }
            push_char(&mut out, ch);
            k += 1;
        }
    }
    (1, out, k)
}

/// Exec form of one lexer step.
enum ExecStep {
    Skip(usize),
    Emit(Tok, usize, usize),
    Fail(Diag),
}

pub open spec fn byte_table(cs: Seq<char>, bo: Seq<usize>) -> bool {
    &&& bo.len() == cs.len() + 1
    &&& forall|k: int| 0 <= k <= cs.len() ==> #[trigger] bo[k] as nat == byte_off(cs, k)
}

fn lex_diag(rule: &str, msg: String, bo: &Vec<usize>, s: usize, e: usize) -> (d: Diag)
    requires
        s <= e < bo@.len(),
    ensures
        d.rule@ == rule@,
        d.message@ == msg@,
        d.span == (Span { start: bo@[s as int], end: bo@[e as int] }),
        d.expected is None,
        d.actual is None,
        d.hint is None,
{
    Diag::new(rule, msg, Span::new(bo[s], bo[e]))
}

fn step_at(cs: &[char], bo: &Vec<usize>, i: usize) -> (r: ExecStep)
    requires
        i < cs@.len(),
        byte_table(cs@, bo@),
    ensures
        match (step(cs@, i as int), r) {
            (Step::Skip(j), ExecStep::Skip(x)) => x == j,
            (Step::Emit(t, s, e), ExecStep::Emit(u, x, y)) => u@ == t && x == s && y == e,
            (Step::Fail(err), ExecStep::Fail(d)) => diag_is(d, err, cs@),
            _ => false,
        },
{
    proof {
        lemma_step(cs@, i as int);
        lemma_ident_end(cs@, i as int);
        lemma_ident_end(cs@, i + 1);
        lemma_digits_end(cs@, i as int);
        lemma_text_scan(cs@, i + 1);
    }
    let c = cs[i];
    if c == ' ' || c == '\t' || c == '\r' || c == '\n' || c == '\u{feff}' {
        return ExecStep::Skip(i + 1);
    }
    if c == '#' {
        let mut j = i;
        while j < cs.len() && cs[j] != '\n'
            invariant
                i <= j <= cs@.len(),
                first_nl(cs@, i as int) == first_nl(cs@, j as int),
            decreases cs.len() - j,
        {
            j += 1;
        }
        return ExecStep::Skip(j);
    }
    if is_lower(c) || c == '_' {
        let j = ident_end_at(cs, i);
        let w = slice_string(cs, i, j);
        let tok = match keyword_tok(w.as_str()) {
            Some(k) => k,
            None => Tok::Ident(w),
        };
        return ExecStep::Emit(tok, i, j);
    }
    if is_upper(c) {
        let j = ident_end_at(cs, i);
        let w = slice_string(cs, i, j);
        return ExecStep::Emit(Tok::Upper(w), i, j);
    }
    if is_digit(c) {
        let d = digits_end_at(cs, i);
        if d < cs.len() && d + 1 < cs.len() && cs[d] == '.' && is_digit(cs[d + 1]) {
            proof {
                lemma_digits_end(cs@, d + 1);
            }
            let e = digits_end_at(cs, d + 1);
            let w = slice_string(cs, i, e);
            return ExecStep::Emit(Tok::Float(w), i, e);
        }
        match digits_value(cs, i, d) {
            Some(v) => {
                return ExecStep::Emit(Tok::Int(v), i, d);
            }
            None => {
                let mut msg = String::new();
                push_str(&mut msg, "integer literal `");
                let w = slice_string(cs, i, d);
                push_str(&mut msg, w.as_str());
                push_str(&mut msg, "` out of range");
                let dg = lex_diag("W6", msg, bo, i, d);
                proof {
                    reveal_strlit("W6");
                    assert(dg.message@ =~= "integer literal `"@ + cs@.subrange(i as int, d as int) + "` out of range"@);
                }
                return ExecStep::Fail(dg);
            }
        }
    }
    if c == '"' {
        let (st, content, j) = scan_text(cs, i + 1);
        if st == 0 {
            return ExecStep::Emit(Tok::Text(content), i, j);
        } else if st == 1 {
            let dg = lex_diag("W6", owned("unterminated Text literal"), bo, i, j);
            proof {
                reveal_strlit("W6");
            }
            return ExecStep::Fail(dg);
        } else {
            let mut msg = String::new();
            push_str(&mut msg, "unknown escape `\\");
            push_char(&mut msg, cs[j + 1]);
            push_str(&mut msg, "` in Text literal");
            let dg = lex_diag("W6", msg, bo, j, j + 2);
            let dg = dg.hint(owned("valid escapes are \\n, \\t, \\\", \\\\"));
            proof {
                reveal_strlit("W6");
                reveal_strlit("valid escapes are \\n, \\t, \\\", \\\\");
                assert(dg.hint.unwrap()@ =~= escape_hint());
                assert(dg.message@ =~= "unknown escape `\\"@ + seq![cs@[j + 1]] + "` in Text literal"@);
            }
            return ExecStep::Fail(dg);
        }
    }
    if c == '?' && i + 1 < cs.len() && (is_lower(cs[i + 1]) || cs[i + 1] == '_') {
        let j = ident_end_at(cs, i + 1);
        let w = slice_string(cs, i + 1, j);
        return ExecStep::Emit(Tok::Hole(w), i, j);
    }
    if i + 1 < cs.len() {
        match two_char_tok(c, cs[i + 1]) {
            Some(t) => {
                return ExecStep::Emit(t, i, i + 2);
            }
            None => {}
        }
    }
    match one_char_tok(c) {
        Some(t) => ExecStep::Emit(t, i, i + 1),
        None => {
            let mut msg = String::new();
            push_str(&mut msg, "unexpected character `");
            push_char(&mut msg, c);
            push_str(&mut msg, "`");
            let dg = lex_diag("W4", msg, bo, i, i + 1);
            proof {
                reveal_strlit("W4");
                assert(dg.message@ =~= "unexpected character `"@ + seq![c] + "`"@);
            }
            ExecStep::Fail(dg)
        }
    }
}

/// Byte offset of every character index of `cs`, and of its end.
fn byte_offsets(cs: &[char]) -> (bo: Vec<usize>)
    requires
        byte_off(cs@, cs@.len() as int) < usize::MAX,
    ensures
        byte_table(cs@, bo@),
{
    let mut bo: Vec<usize> = Vec::new();
    let mut off: usize = 0;
    let mut k: usize = 0;
    while k < cs.len()
        invariant
            k <= cs@.len(),
            byte_off(cs@, cs@.len() as int) < usize::MAX,
            bo@.len() == k,
            off as nat == byte_off(cs@, k as int),
            forall|q: int| 0 <= q < k ==> #[trigger] bo@[q] as nat == byte_off(cs@, q),
        decreases cs.len() - k,
    {
        bo.push(off);
        proof {
            lemma_byte_off_mono(cs@, k + 1, cs@.len() as int);
        }
        off = off + char_utf8_len(cs[k]);
        k += 1;
    }
    bo.push(off);
    bo
}

/// Splits a source text into tokens with byte spans, ending with `Eof`;
/// or reports the first lexical error.
pub fn lex(src: &str) -> (r: Result<Vec<Token>, Diag>)
    requires
        byte_off(src@, src@.len() as int) < usize::MAX,
    ensures
        match (lex_spec(src@), r) {
            (LexOut::Toks(g), Ok(ts)) => tokens_are(ts@, g, src@),
            (LexOut::Fail(err), Err(d)) => diag_is(d, err, src@),
            _ => false,
        },
        r is Err ==> crate::diag::cites_rule(r->Err_0),
{
    proof {
        lemma_lex_error_rule(src@, 0);
    }
    let cs = chars_of(src);
    let bo = byte_offsets(cs.as_slice());
    let mut toks: Vec<Token> = Vec::new();
    let ghost mut g: Seq<(TokV, int, int)> = seq![];
    let mut i: usize = 0;
    proof {
        assert(lex_prefix(g, lex_from(cs@, 0)) =~= lex_from(cs@, 0)) by {
            match lex_from(cs@, 0) {
                LexOut::Toks(ts) => {
                    assert(g + ts =~= ts);
                }
                _ => {}
            }
        }
    }
    while i < cs.len()
        invariant
            i <= cs@.len(),
            cs@ == src@,
            byte_table(cs@, bo@),
            lex_from(cs@, 0) == lex_prefix(g, lex_from(cs@, i as int)),
            tokens_are(toks@, g, cs@),
        decreases cs.len() - i,
    {
        proof {
            lemma_step(cs@, i as int);
        }
        match step_at(cs.as_slice(), &bo, i) {
            ExecStep::Skip(j) => {
                i = j;
            }
            ExecStep::Emit(tok, s, e) => {
                let ghost item = (tok@, s as int, e as int);
                proof {
                    let rest = lex_from(cs@, e as int);
                    assert(lex_prefix(g, lex_prefix(seq![item], rest)) == lex_prefix(g.push(item), rest)) by {
                        match rest {
                            LexOut::Toks(ts) => {
                                assert(g + (seq![item] + ts) =~= g.push(item) + ts);
                            }
                            _ => {}
                        }
                    }
                }
                toks.push(Token { tok, span: Span::new(bo[s], bo[e]) });
                proof {
                    g = g.push(item);
                }
                i = e;
            }
            ExecStep::Fail(d) => {
                return Err(d);
            }
        }
    }
    let n = cs.len();
    toks.push(Token { tok: Tok::Eof, span: Span::new(bo[n], bo[n]) });
    proof {
        g = g.push((TokV::Eof, n as int, n as int));
    }
    Ok(toks)
}

} // verus!
