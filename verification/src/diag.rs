//! Structured diagnostics: every error cites a spec rule, carries a source
//! span, and renders either as JSON or as a human-readable report.
use vstd::prelude::*;
use crate::text::{hex4, hex_char, nat_text, push_char, push_hex4, push_nat, push_str, owned};
use crate::lines::{line_col, line_col_spec, lines_of, lines_vec};
use crate::text::chars_of;

verus! {

/// A half-open byte range `[start, end)` in a source text.
#[derive(Debug, Clone, Copy, PartialEq, Eq, Structural)]
pub struct Span {
    pub start: usize,
    pub end: usize,
}

pub open spec fn min_nat(a: usize, b: usize) -> usize {
    if a <= b { a } else { b }
}

pub open spec fn max_nat(a: usize, b: usize) -> usize {
    if a >= b { a } else { b }
}

/// The smallest span covering both arguments.
pub open spec fn merge_spec(a: Span, b: Span) -> Span {
    Span { start: min_nat(a.start, b.start), end: max_nat(a.end, b.end) }
}

/// `outer` covers `inner`.
pub open spec fn covers(outer: Span, inner: Span) -> bool {
    outer.start <= inner.start && inner.end <= outer.end
}

impl Span {
    pub fn new(start: usize, end: usize) -> (r: Span)
        ensures
            r.start == start,
            r.end == end,
    {
        Span { start, end }
    }

    /// The smallest span covering both spans.
    pub fn merge(self, other: Span) -> (r: Span)
        ensures
            r == merge_spec(self, other),
    {
        Span {
            start: if self.start <= other.start { self.start } else { other.start },
            end: if self.end >= other.end { self.end } else { other.end },
        }
    }
}

/// A merged span covers both of its parts, and any span covering both parts
/// covers the merge.
pub proof fn lemma_merge_covers(a: Span, b: Span, c: Span)
    ensures
        covers(merge_spec(a, b), a),
        covers(merge_spec(a, b), b),
        covers(c, a) && covers(c, b) ==> covers(c, merge_spec(a, b)),
{
}

/// Merging is commutative, associative and idempotent.
pub proof fn lemma_merge_algebra(a: Span, b: Span, c: Span)
    ensures
        merge_spec(a, b) == merge_spec(b, a),
        merge_spec(merge_spec(a, b), c) == merge_spec(a, merge_spec(b, c)),
        merge_spec(a, a) == a,
{
}

/// The numbered rules of the language reference.
pub open spec fn rule_ids() -> Set<Seq<char>> {
    set![
        "W1"@, "W2"@, "W3"@, "W4"@, "W5"@, "W6"@, "W7"@, "W8"@, "W9"@, "W10"@, "W11"@, "W12"@, "W13"@, "W14"@,
        "W15"@, "W16"@, "W17"@, "W18"@, "W19"@, "W20"@, "W21"@, "W22"@, "W23"@, "W24"@, "W25"@, "W26"@, "W27"@,
        "W28"@, "W29"@, "W30"@, "W31"@, "W32"@, "W33"@, "W34"@, "W35"@, "W36"@, "W37"@, "W38"@, "W39"@, "W40"@,
        "W41"@, "W42"@, "W43"@,
    ]
}

/// A diagnostic cites one of the numbered rules.
pub open spec fn cites_rule(d: Diag) -> bool {
    rule_ids().contains(d.rule@)
}

/// A diagnostic: rule id, message, span, and optional expected / actual /
/// hint texts.
#[derive(Debug)]
pub struct Diag {
    pub rule: String,
    pub message: String,
    pub span: Span,
    pub expected: Option<String>,
    pub actual: Option<String>,
    pub hint: Option<String>,
}

impl Diag {
    pub fn new(rule: &str, message: String, span: Span) -> (r: Diag)
        ensures
            r.rule@ == rule@,
            r.message@ == message@,
            r.span == span,
            r.expected is None,
            r.actual is None,
            r.hint is None,
    {
        Diag { rule: owned(rule), message, span, expected: None, actual: None, hint: None }
    }

    pub fn expected(self, e: String) -> (r: Diag)
        ensures
            r.rule == self.rule,
            r.message == self.message,
            r.span == self.span,
            r.expected == Some(e),
            r.actual == self.actual,
            r.hint == self.hint,
    {
        let mut d = self;
        d.expected = Some(e);
        d
    }

    pub fn actual(self, a: String) -> (r: Diag)
        ensures
            r.rule == self.rule,
            r.message == self.message,
            r.span == self.span,
            r.expected == self.expected,
            r.actual == Some(a),
            r.hint == self.hint,
    {
        let mut d = self;
        d.actual = Some(a);
        d
    }

    pub fn hint(self, h: String) -> (r: Diag)
        ensures
            r.rule == self.rule,
            r.message == self.message,
            r.span == self.span,
            r.expected == self.expected,
            r.actual == self.actual,
            r.hint == Some(h),
    {
        let mut d = self;
        d.hint = Some(h);
        d
    }

    /// The diagnostic as one JSON object: rule, message, the span as
    /// 1-based line/column pairs, then whichever of expected / actual /
    /// hint are present.
    pub fn to_json(&self, src: &str) -> (r: String)
        requires
            src@.len() < usize::MAX,
        ensures
            r@ == diag_json(*self, src@),
    {
        let a = line_col(src, self.span.start);
        let b = line_col(src, self.span.end);
        let mut s = String::new();
        push_char(&mut s, '{');
        push_field(&mut s, "rule", self.rule.as_str());
        push_char(&mut s, ',');
        push_field(&mut s, "message", self.message.as_str());
        let ghost h0 = s@;
        push_span_json(&mut s, a, b);
        let ghost h1 = s@;
        push_opt_field(&mut s, "expected", &self.expected);
        let ghost h2 = s@;
        push_opt_field(&mut s, "actual", &self.actual);
        let ghost h3 = s@;
        push_opt_field(&mut s, "hint", &self.hint);
        let ghost h4 = s@;
        push_char(&mut s, '}');
        proof {
            reveal_strlit("rule");
            reveal_strlit("message");
            reveal_strlit("expected");
            reveal_strlit("actual");
            reveal_strlit("hint");
            assert(h0 =~= seq!['{'] + json_field("rule"@, self.rule@) + seq![',']
                + json_field("message"@, self.message@));
            assert(s@ =~= h4 + seq!['}']);
        }
        s
    }

    /// The diagnostic as a human-readable report: header with rule,
    /// message and `file:line:col`, the offending source line, then
    /// expected / actual / hint lines.
    pub fn render_human(&self, src: &str, file: &str) -> (r: String)
        requires
            src@.len() < usize::MAX,
        ensures
            r@ == diag_human(*self, src@, file@),
    {
        let lc = line_col(src, self.span.start);
        let mut out = String::new();
        push_human_head(&mut out, self, lc, file);
        let ghost h0 = out@;
        push_src_line(&mut out, src, lc.0);
        let ghost h1 = out@;
        push_opt_line(&mut out, "\n   expected: ", &self.expected);
        let ghost h2 = out@;
        push_opt_line(&mut out, "\n   actual:   ", &self.actual);
        let ghost h3 = out@;
        push_opt_line(&mut out, "\n   hint: ", &self.hint);
        out
    }
}

fn push_span_json(s: &mut String, a: (usize, usize), b: (usize, usize))
    ensures
        final(s)@ == old(s)@ + json_span((a.0 as nat, a.1 as nat), (b.0 as nat, b.1 as nat)),
{
    let ghost s0 = s@;
    push_str(s, ",\"span\":{\"line\":");
    push_nat(s, a.0 as u64);
    let ghost s1 = s@;
    push_str(s, ",\"col\":");
    push_nat(s, a.1 as u64);
    let ghost s2 = s@;
    push_str(s, ",\"endLine\":");
    push_nat(s, b.0 as u64);
    let ghost s3 = s@;
    push_str(s, ",\"endCol\":");
    push_nat(s, b.1 as u64);
    let ghost s4 = s@;
    push_char(s, '}');
    proof {
        assert(s@ =~= s0 + json_span((a.0 as nat, a.1 as nat), (b.0 as nat, b.1 as nat)));
    }
}

fn push_opt_field(s: &mut String, key: &str, val: &Option<String>)
    ensures
        final(s)@ == old(s)@ + opt_json_field(key@, *val),
{
    match val {
        Some(v) => {
            let ghost s0 = s@;
            push_char(s, ',');
            push_field(s, key, v.as_str());
            assert(s@ =~= s0 + opt_json_field(key@, *val));
        }
        None => {
            assert(s@ =~= s@ + opt_json_field(key@, *val));
        }
    }
}

fn push_human_head(out: &mut String, d: &Diag, lc: (usize, usize), file: &str)
    ensures
        final(out)@ == old(out)@ + human_head(*d, (lc.0 as nat, lc.1 as nat), file@),
{
    let ghost s0 = out@;
    push_str(out, "error[");
    push_str(out, d.rule.as_str());
    push_str(out, "]: ");
    push_str(out, d.message.as_str());
    push_str(out, "\n  --> ");
    push_str(out, file);
    push_char(out, ':');
    push_nat(out, lc.0 as u64);
    push_char(out, ':');
    push_nat(out, lc.1 as u64);
    assert(out@ =~= s0 + human_head(*d, (lc.0 as nat, lc.1 as nat), file@));
}

fn push_src_line(out: &mut String, src: &str, line: usize)
    requires
        src@.len() < usize::MAX,
    ensures
        final(out)@ == old(out)@ + human_src_line(lines_of(src@), line as nat),
{
    let cs = chars_of(src);
    let ls = lines_vec(cs.as_slice());
    proof {
        assert(ls@.map_values(|v: Vec<char>| v@).len() == ls@.len());
    }
    if 1 <= line && line - 1 < ls.len() {
        let ghost s0 = out@;
        push_str(out, "\n   | ");
        let l = &ls[line - 1];
        let mut k: usize = 0;
        let ghost before = out@;
        while k < l.len()
            invariant
                k <= l@.len(),
                out@ == before + l@.take(k as int),
            decreases l.len() - k,
        {
            push_char(out, l[k]);
            k += 1;
            assert(out@ =~= before + l@.take(k as int));
        }
        proof {
            assert(l@.take(l@.len() as int) =~= l@);
            assert(ls@.map_values(|v: Vec<char>| v@)[line - 1] == l@);
            assert(out@ =~= s0 + human_src_line(lines_of(src@), line as nat));
        }
    } else {
        assert(out@ =~= out@ + human_src_line(lines_of(src@), line as nat));
    }
}

fn push_opt_line(out: &mut String, label: &str, val: &Option<String>)
    ensures
        final(out)@ == old(out)@ + opt_line(label@, *val),
{
    match val {
        Some(v) => {
            let ghost s0 = out@;
            push_str(out, label);
            push_str(out, v.as_str());
            assert(out@ =~= s0 + opt_line(label@, *val));
        }
        None => {
            assert(out@ =~= out@ + opt_line(label@, *val));
        }
    }
}

/// JSON escape of one character: quote, backslash, `\n`, `\t`, `\r` get
/// their short escapes; other control characters `\u00XX`.
pub open spec fn json_esc(c: char) -> Seq<char> {
    if c == '"' {
        seq!['\\', '"']
    } else if c == '\\' {
        seq!['\\', '\\']
    } else if c == '\n' {
        seq!['\\', 'n']
    } else if c == '\t' {
        seq!['\\', 't']
    } else if c == '\r' {
        seq!['\\', 'r']
    } else if (c as u32) < 0x20 {
        seq!['\\', 'u'] + hex4(c as u32 as nat)
    } else {
        seq![c]
    }
}

/// JSON escape of a text.
pub open spec fn json_escape(s: Seq<char>) -> Seq<char>
    decreases s.len(),
{
    if s.len() == 0 {
        seq![]
    } else {
        json_escape(s.drop_last()) + json_esc(s.last())
    }
}

/// `"key":"escaped value"`
pub open spec fn json_field(key: Seq<char>, val: Seq<char>) -> Seq<char> {
    seq!['"'] + key + seq!['"', ':', '"'] + json_escape(val) + seq!['"']
}

/// `,"key":"value"` when the value is present, nothing otherwise.
pub open spec fn opt_json_field(key: Seq<char>, val: Option<String>) -> Seq<char> {
    match val {
        Some(v) => seq![','] + json_field(key, v@),
        None => seq![],
    }
}

/// `,"span":{"line":L,"col":C,"endLine":EL,"endCol":EC}`
pub open spec fn json_span(a: (nat, nat), b: (nat, nat)) -> Seq<char> {
    ",\"span\":{\"line\":"@ + nat_text(a.0) + ",\"col\":"@ + nat_text(a.1)
        + ",\"endLine\":"@ + nat_text(b.0) + ",\"endCol\":"@ + nat_text(b.1) + seq!['}']
}

pub open spec fn diag_json(d: Diag, src: Seq<char>) -> Seq<char> {
    seq!['{'] + json_field("rule"@, d.rule@) + seq![','] + json_field("message"@, d.message@)
        + json_span(line_col_spec(src, d.span.start as nat), line_col_spec(src, d.span.end as nat))
        + opt_json_field("expected"@, d.expected) + opt_json_field("actual"@, d.actual)
        + opt_json_field("hint"@, d.hint) + seq!['}']
}

pub open spec fn human_head(d: Diag, lc: (nat, nat), file: Seq<char>) -> Seq<char> {
    "error["@ + d.rule@ + "]: "@ + d.message@ + "\n  --> "@ + file + seq![':'] + nat_text(lc.0)
        + seq![':'] + nat_text(lc.1)
}

/// `\n   | <line>` for the (1-based) line when the text has it.
pub open spec fn human_src_line(ls: Seq<Seq<char>>, line: nat) -> Seq<char> {
    if 1 <= line && line - 1 < ls.len() {
        "\n   | "@ + ls[line - 1]
    } else {
        seq![]
    }
}

pub open spec fn opt_line(label: Seq<char>, val: Option<String>) -> Seq<char> {
    match val {
        Some(v) => label + v@,
        None => seq![],
    }
}

pub open spec fn diag_human(d: Diag, src: Seq<char>, file: Seq<char>) -> Seq<char> {
    let lc = line_col_spec(src, d.span.start as nat);
    human_head(d, lc, file) + human_src_line(lines_of(src), lc.0)
        + opt_line("\n   expected: "@, d.expected) + opt_line("\n   actual:   "@, d.actual)
        + opt_line("\n   hint: "@, d.hint)
}

/// Appends `"key":"value"` with the value JSON-escaped.
pub fn push_field(s: &mut String, key: &str, val: &str)
    ensures
        final(s)@ == old(s)@ + json_field(key@, val@),
{
    push_char(s, '"');
    push_str(s, key);
    push_str(s, "\":\"");
    let ghost start = s@;
    let cs = chars_of(val);
    let mut i: usize = 0;
    while i < cs.len()
        invariant
            i <= cs@.len(),
            cs@ == val@,
            s@ == start + json_escape(cs@.take(i as int)),
        decreases cs.len() - i,
    {
        let c = cs[i];
        if c == '"' {
            push_char(s, '\\');
            push_char(s, '"');
        } else if c == '\\' {
            push_char(s, '\\');
            push_char(s, '\\');
        } else if c == '\n' {
            push_char(s, '\\');
            push_char(s, 'n');
        } else if c == '\t' {
            push_char(s, '\\');
            push_char(s, 't');
        } else if c == '\r' {
            push_char(s, '\\');
            push_char(s, 'r');
        } else if (c as u32) < 0x20 {
            push_char(s, '\\');
            push_char(s, 'u');
            push_hex4(s, c as u32);
        } else {
            push_char(s, c);
        }
        proof {
            assert(cs@.take(i + 1).drop_last() =~= cs@.take(i as int));
            assert(s@ =~= start + json_escape(cs@.take(i + 1)));
        }
        i += 1;
    }
    push_char(s, '"');
    proof {
        reveal_strlit("\":\"");
        assert(cs@.take(cs@.len() as int) =~= cs@);
        assert(s@ =~= old(s)@ + json_field(key@, val@));
    }
}


/// The value of a hexadecimal digit character (`0` for any other).
pub open spec fn hex_val(c: char) -> nat {
    if '0' <= c && c <= '9' {
        (c as u32 - '0' as u32) as nat
    } else if 'a' <= c && c <= 'f' {
        (c as u32 - 'a' as u32 + 10) as nat
    } else if 'A' <= c && c <= 'F' {
        (c as u32 - 'A' as u32 + 10) as nat
    } else {
        0
    }
}

/// The character a JSON `\uXXXX` escape with these four digits stands for.
pub open spec fn hex4_char(s: Seq<char>) -> char {
    ((hex_val(s[0]) * 4096 + hex_val(s[1]) * 256 + hex_val(s[2]) * 16 + hex_val(s[3])) as u32) as char
}

/// The text a JSON string literal's contents (between the quotes) stand for.
pub open spec fn json_unescape(s: Seq<char>) -> Seq<char>
    decreases s.len(),
{
    if s.len() == 0 {
        seq![]
    } else if s[0] == '\\' && s.len() >= 2 {
        let e = s[1];
        if e == 'u' && s.len() >= 6 {
            seq![hex4_char(s.subrange(2, 6))] + json_unescape(s.skip(6))
        } else {
            let c = if e == 'n' {
                '\n'
            } else if e == 't' {
                '\t'
            } else if e == 'r' {
                '\r'
            } else if e == 'b' {
                '\x08'
            } else if e == 'f' {
                '\x0c'
            } else {
                e
            };
            seq![c] + json_unescape(s.skip(2))
        }
    } else {
        seq![s[0]] + json_unescape(s.skip(1))
    }
}

proof fn lemma_escape_front(c: char, t: Seq<char>)
    ensures
        json_escape(seq![c] + t) == json_esc(c) + json_escape(t),
    decreases t.len(),
{
    if t.len() == 0 {
        assert((seq![c] + t).drop_last() =~= Seq::<char>::empty());
        assert((seq![c] + t).last() == c);
        assert(json_escape(Seq::<char>::empty()) =~= Seq::<char>::empty());
        assert(json_escape(seq![c] + t) =~= json_escape(Seq::<char>::empty()) + json_esc(c));
        assert(json_escape(seq![c] + t) =~= json_esc(c));
    } else {
        lemma_escape_front(c, t.drop_last());
        assert((seq![c] + t).drop_last() =~= seq![c] + t.drop_last());
        assert((seq![c] + t).last() == t.last());
        assert(json_escape(seq![c] + t) =~= json_esc(c) + json_escape(t));
    }
}

proof fn lemma_hex_val(d: nat)
    requires
        d < 16,
    ensures
        hex_val(hex_char(d)) == d,
{
}

/// Decoding a JSON-escaped text gives the text back: each field that
/// `Diag::to_json` writes holds exactly the diagnostic's text.
pub proof fn lemma_json_round_trip(s: Seq<char>)
    ensures
        json_unescape(json_escape(s)) == s,
    decreases s.len(),
{
    if s.len() > 0 {
        let c = s[0];
        let t = s.skip(1);
        assert(s =~= seq![c] + t);
        lemma_escape_front(c, t);
        lemma_json_round_trip(t);
        let e = json_esc(c);
        let w = e + json_escape(t);
        if c == '"' || c == '\\' || c == '\n' || c == '\t' || c == '\r' {
            assert(w.skip(2) =~= json_escape(t));
        } else if (c as u32) < 0x20 {
            let n = c as u32 as nat;
            lemma_hex_val((n / 4096) % 16);
            lemma_hex_val((n / 256) % 16);
            lemma_hex_val((n / 16) % 16);
            lemma_hex_val(n % 16);
            assert(w.subrange(2, 6) =~= hex4(n));
            assert(w.skip(6) =~= json_escape(t));
            vstd::utf8::char_u32_cast(c, c as u32);
            assert(hex4_char(w.subrange(2, 6)) == c);
        } else {
            assert(w.skip(1) =~= json_escape(t));
        }
        assert(json_unescape(w) =~= seq![c] + t);
    }
}

/// The character a two-character JSON escape `\e` stands for.
pub open spec fn json_short_escape(e: char) -> char {
    if e == 'n' {
        '\n'
    } else if e == 't' {
        '\t'
    } else if e == 'r' {
        '\r'
    } else if e == 'b' {
        '\x08'
    } else if e == 'f' {
        '\x0c'
    } else {
        e
    }
}

/// Reading the contents of a JSON string literal up to its closing quote:
/// the text they stand for and what follows the quote, or `None` when the
/// literal is not closed.
pub open spec fn read_json_string(s: Seq<char>) -> Option<(Seq<char>, Seq<char>)>
    decreases s.len(),
{
    if s.len() == 0 {
        None
    } else if s[0] == '"' {
        Some((seq![], s.skip(1)))
    } else if s[0] == '\\' && s.len() >= 6 && s[1] == 'u' {
        match read_json_string(s.skip(6)) {
            Some((v, rest)) => Some((seq![hex4_char(s.subrange(2, 6))] + v, rest)),
            None => None,
        }
    } else if s[0] == '\\' && s.len() >= 2 {
        match read_json_string(s.skip(2)) {
            Some((v, rest)) => Some((seq![json_short_escape(s[1])] + v, rest)),
            None => None,
        }
    } else {
        match read_json_string(s.skip(1)) {
            Some((v, rest)) => Some((seq![s[0]] + v, rest)),
            None => None,
        }
    }
}

/// Reading `"key":"value"` at the start of `t`: the value and what follows.
pub open spec fn read_json_field(t: Seq<char>, key: Seq<char>) -> Option<(Seq<char>, Seq<char>)> {
    let p = seq!['"'] + key + seq!['"', ':', '"'];
    if t.len() >= p.len() && t.take(p.len() as int) == p {
        read_json_string(t.skip(p.len() as int))
    } else {
        None
    }
}

/// Reading an optional `,"key":"value"` at the start of `t`: the value if
/// the field is there, and what follows it (all of `t` if it is not).
pub open spec fn read_opt_json_field(t: Seq<char>, key: Seq<char>) -> (Option<Seq<char>>, Seq<char>) {
    if t.len() > 0 && t[0] == ',' {
        match read_json_field(t.skip(1), key) {
            Some((v, rest)) => (Some(v), rest),
            None => (None, t),
        }
    } else {
        (None, t)
    }
}

proof fn lemma_read_escaped(v: Seq<char>, rest: Seq<char>)
    ensures
        read_json_string(json_escape(v) + seq!['"'] + rest) == Some((v, rest)),
    decreases v.len(),
{
    let w = json_escape(v) + seq!['"'] + rest;
    if v.len() == 0 {
        assert(json_escape(v) =~= Seq::<char>::empty());
        assert(w =~= seq!['"'] + rest);
        assert(w.skip(1) =~= rest);
    } else {
        let c = v[0];
        let t = v.skip(1);
        assert(v =~= seq![c] + t);
        lemma_escape_front(c, t);
        lemma_read_escaped(t, rest);
        let e = json_esc(c);
        let tail = json_escape(t) + seq!['"'] + rest;
        assert(w =~= e + tail);
        if c == '"' || c == '\\' || c == '\n' || c == '\t' || c == '\r' {
            assert(w.skip(2) =~= tail);
            assert(json_short_escape(w[1]) == c);
        } else if (c as u32) < 0x20 {
            let n = c as u32 as nat;
            lemma_hex_val((n / 4096) % 16);
            lemma_hex_val((n / 256) % 16);
            lemma_hex_val((n / 16) % 16);
            lemma_hex_val(n % 16);
            assert(w.subrange(2, 6) =~= hex4(n));
            assert(w.skip(6) =~= tail);
            vstd::utf8::char_u32_cast(c, c as u32);
            assert(hex4_char(w.subrange(2, 6)) == c);
        } else {
            assert(w.skip(1) =~= tail);
        }
        assert(read_json_string(w) =~= Some((seq![c] + t, rest)));
    }
}

proof fn lemma_read_field(key: Seq<char>, v: Seq<char>, rest: Seq<char>)
    ensures
        read_json_field(json_field(key, v) + rest, key) == Some((v, rest)),
{
    let p = seq!['"'] + key + seq!['"', ':', '"'];
    let t = json_field(key, v) + rest;
    assert(t =~= p + (json_escape(v) + seq!['"'] + rest));
    assert(t.take(p.len() as int) =~= p);
    assert(t.skip(p.len() as int) =~= json_escape(v) + seq!['"'] + rest);
    lemma_read_escaped(v, rest);
}

proof fn lemma_read_opt_field(key: Seq<char>, val: Option<String>, rest: Seq<char>)
    requires
        val is None ==> (rest.len() == 0 || rest[0] != ',' || read_json_field(rest.skip(1), key) is None),
    ensures
        read_opt_json_field(opt_json_field(key, val) + rest, key) == (
        match val {
            Some(v) => Some(v@),
            None => None::<Seq<char>>,
        },
        rest,
    ),
{
    match val {
        Some(v) => {
            let t = opt_json_field(key, val) + rest;
            assert(t =~= seq![','] + (json_field(key, v@) + rest));
            assert(t.skip(1) =~= json_field(key, v@) + rest);
            lemma_read_field(key, v@, rest);
        },
        None => {
            assert(opt_json_field(key, val) + rest =~= rest);
        },
    }
}

/// Where `key` is not the name of the field that `t` starts with.
proof fn lemma_other_field(t: Seq<char>, key: Seq<char>, k: int)
    requires
        1 <= k < key.len() + 1,
        t.len() > k,
        t[k] != key[k - 1],
    ensures
        read_json_field(t, key) is None,
{
    let p = seq!['"'] + key + seq!['"', ':', '"'];
    if t.len() >= p.len() && t.take(p.len() as int) == p {
        assert(t.take(p.len() as int)[k] == t[k]);
        assert(p[k] == key[k - 1]);
    }
}

/// The JSON object of a diagnostic reads back field by field: after `{`,
/// the rule, then after a comma the message, then the span object, then
/// each of expected, actual and hint exactly when the diagnostic has it,
/// with the very texts the diagnostic holds, whatever characters they
/// contain, and finally `}`.
#[verifier::rlimit(40)]
pub proof fn lemma_diag_json_reads_back(d: Diag, src: Seq<char>)
    ensures
        ({
            let t = diag_json(d, src);
            let span = json_span(line_col_spec(src, d.span.start as nat), line_col_spec(src, d.span.end as nat));
            &&& t[0] == '{'
            &&& match read_json_field(t.skip(1), "rule"@) {
                Some((rule, t1)) => rule == d.rule@ && t1[0] == ',' && (match read_json_field(t1.skip(1), "message"@) {
                    Some((message, t2)) => message == d.message@ && t2.take(span.len() as int) == span && ({
                        let (e, t3) = read_opt_json_field(t2.skip(span.len() as int), "expected"@);
                        let (a, t4) = read_opt_json_field(t3, "actual"@);
                        let (h, t5) = read_opt_json_field(t4, "hint"@);
                        &&& e == opt_view(d.expected)
                        &&& a == opt_view(d.actual)
                        &&& h == opt_view(d.hint)
                        &&& t5 == seq!['}']
                    }),
                    None => false,
                }),
                None => false,
            }
        }),
{
    reveal_strlit("rule");
    reveal_strlit("message");
    reveal_strlit("expected");
    reveal_strlit("actual");
    reveal_strlit("hint");
    let t = diag_json(d, src);
    let span = json_span(line_col_spec(src, d.span.start as nat), line_col_spec(src, d.span.end as nat));
    let f2 = opt_json_field("expected"@, d.expected) + opt_json_field("actual"@, d.actual) + opt_json_field(
        "hint"@,
        d.hint,
    ) + seq!['}'];
    let t2 = span + f2;
    let t1 = seq![','] + json_field("message"@, d.message@) + t2;
    assert(t =~= seq!['{'] + (json_field("rule"@, d.rule@) + t1));
    assert(t.skip(1) =~= json_field("rule"@, d.rule@) + t1);
    lemma_read_field("rule"@, d.rule@, t1);
    assert(t1.skip(1) =~= json_field("message"@, d.message@) + t2);
    lemma_read_field("message"@, d.message@, t2);
    assert(t2.take(span.len() as int) =~= span);
    assert(t2.skip(span.len() as int) =~= f2);
    lemma_opt_tail_reads_back(d.expected, d.actual, d.hint);
}

proof fn lemma_opt_tail_reads_back(e: Option<String>, a: Option<String>, h: Option<String>)
    ensures
        ({
            let f2 = opt_json_field("expected"@, e) + opt_json_field("actual"@, a) + opt_json_field("hint"@, h) + seq![
                '}',
            ];
            let (x, t3) = read_opt_json_field(f2, "expected"@);
            let (y, t4) = read_opt_json_field(t3, "actual"@);
            let (z, t5) = read_opt_json_field(t4, "hint"@);
            &&& x == opt_view(e)
            &&& y == opt_view(a)
            &&& z == opt_view(h)
            &&& t5 == seq!['}']
        }),
{
    reveal_strlit("expected");
    reveal_strlit("actual");
    reveal_strlit("hint");
    let f5 = seq!['}'];
    let f4 = opt_json_field("hint"@, h) + f5;
    let f3 = opt_json_field("actual"@, a) + f4;
    let f2 = opt_json_field("expected"@, e) + f3;
    assert(f2 =~= opt_json_field("expected"@, e) + opt_json_field("actual"@, a) + opt_json_field("hint"@, h) + f5);
    lemma_read_opt_field("hint"@, h, f5);
    if h is Some {
        assert(f4.skip(1)[1] == 'h');
        lemma_other_field(f4.skip(1), "actual"@, 1);
        lemma_other_field(f4.skip(1), "expected"@, 1);
    }
    lemma_read_opt_field("actual"@, a, f4);
    if a is Some {
        assert(f3.skip(1)[1] == 'a');
        lemma_other_field(f3.skip(1), "expected"@, 1);
    } else {
        assert(f3 =~= f4);
    }
    lemma_read_opt_field("expected"@, e, f3);
}

/// A text option by its view.
pub open spec fn opt_view(o: Option<String>) -> Option<Seq<char>> {
    match o {
        Some(v) => Some(v@),
        None => None,
    }
}

} // verus!
