//! What the command line prints: diagnostics in either form, the repair
//! payload (failure, the cited rule's text, a numbered source excerpt), and
//! the one-line reports of the parse, check and test commands.
use vstd::prelude::*;
use crate::check::{CheckResult, HoleNote};
use crate::diag::{Diag, Span, diag_human, diag_json};
use crate::eval::{TestOutcome, opt_text};
use crate::index::{join_lines, join_spec, line_at, lines_view};
use crate::lines::{line_col, lines_of, lines_vec};
use crate::text::{chars_of, nat_text, owned, push_char, push_str, starts_with, trim_spec, trim_start_spec, usize_text};

verus! {

// ---------- the rule excerpt ----------

/// `m` occurs in `l`.
pub open spec fn contains_seq(l: Seq<char>, m: Seq<char>) -> bool {
    exists|k: int| #[trigger] occurs_at(l, m, k)
}

/// `m` occurs in `l` at position `k`.
pub open spec fn occurs_at(l: Seq<char>, m: Seq<char>, k: int) -> bool {
    0 <= k && k + m.len() <= l.len() && l.subrange(k, k + m.len()) == m
}

pub open spec fn starts_seq(t: Seq<char>, p: Seq<char>) -> bool {
    p.len() <= t.len() && t.take(p.len() as int) == p
}

/// A line that ends a rule's text: the next rule's bullet or a heading.
pub open spec fn stops_rule(l: Seq<char>) -> bool {
    let t = trim_start_spec(l);
    starts_seq(t, "- **[W"@) || starts_seq(t, "## "@) || starts_seq(t, "# "@)
}

/// The first line at or after `i` holding `m`.
pub open spec fn first_marked(ls: Seq<Seq<char>>, m: Seq<char>, i: int) -> Option<int>
    decreases ls.len() - i,
{
    if i < 0 || i >= ls.len() {
        None
    } else if contains_seq(ls[i], m) {
        Some(i)
    } else {
        first_marked(ls, m, i + 1)
    }
}

/// The first line at or after `i` that ends a rule's text (or the end).
pub open spec fn rule_end(ls: Seq<Seq<char>>, i: int) -> int
    decreases ls.len() - i,
{
    if i < 0 || i >= ls.len() {
        if i < 0 { 0 } else { i }
    } else if stops_rule(ls[i]) {
        i
    } else {
        rule_end(ls, i + 1)
    }
}

pub open spec fn is_blank(l: Seq<char>) -> bool {
    trim_spec(l).len() == 0
}

/// Trailing blank lines removed.
pub open spec fn drop_blank_tail(q: Seq<Seq<char>>) -> Seq<Seq<char>>
    decreases q.len(),
{
    if q.len() > 0 && is_blank(q.last()) {
        drop_blank_tail(q.drop_last())
    } else {
        q
    }
}

/// One rule's bullet from the specification: from the first line holding
/// `[rule]**` up to the next rule bullet or heading, without trailing blank
/// lines.
pub open spec fn rule_excerpt_spec(spec: Seq<char>, rule: Seq<char>) -> Option<Seq<char>> {
    let ls = lines_of(spec);
    let m = "["@ + rule + "]**"@;
    match first_marked(ls, m, 0) {
        Some(i) => {
            let q = drop_blank_tail(ls.subrange(i, rule_end(ls, i + 1)));
            if q.len() == 0 {
                None
            } else {
                Some(join_spec(q, "\n"@))
            }
        },
        None => None,
    }
}

/// Whether `m` occurs in `l`.
fn contains_chars(l: &Vec<char>, m: &Vec<char>) -> (r: bool)
    ensures
        r == contains_seq(l@, m@),
{
    let ln = l.len();
    if m.len() > ln {
        assert forall|j: int| !occurs_at(l@, m@, j) by {}
        return false;
    }
    let mut k: usize = 0;
    let mn = m.len();
    while k <= ln - mn
        invariant
            ln == l@.len(),
            mn == m@.len(),
            m@.len() <= l@.len(),
            k <= l@.len() - m@.len() + 1,
            forall|j: int| 0 <= j < k ==> !occurs_at(l@, m@, j),
        decreases l.len() - k,
    {
        let mut i: usize = 0;
        let mut same = true;
        while i < m.len()
            invariant
                ln == l@.len(),
                k + m@.len() <= l@.len(),
                i <= m@.len(),
                same == forall|q: int| 0 <= q < i ==> l@[k + q] == m@[q],
            decreases m.len() - i,
        {
            if l[k + i] != m[i] {
                same = false;
            }
            i += 1;
        }
        if same {
            assert(l@.subrange(k as int, k + m@.len()) =~= m@);
            assert(occurs_at(l@, m@, k as int));
            return true;
        }
        proof {
            let q = choose|q: int| 0 <= q < m@.len() && l@[k + q] != m@[q];
            assert(l@.subrange(k as int, k + m@.len())[q] != m@[q]);
        }
        k += 1;
    }
    proof {
        assert forall|j: int| !occurs_at(l@, m@, j) by {
            if 0 <= j < k {
            }
        }
    }
    false
}

fn stops_rule_exec(l: &Vec<char>) -> (r: bool)
    ensures
        r == stops_rule(l@),
{
    let a = crate::text::trim_start_at(l.as_slice(), 0, l.len());
    let t = crate::text::slice_to_string(l.as_slice(), a, l.len());
    assert(l@.subrange(0, l@.len() as int) =~= l@);
    let tc = chars_of(t.as_str());
    let p1 = chars_of("- **[W");
    let p2 = chars_of("## ");
    let p3 = chars_of("# ");
    starts_with(tc.as_slice(), p1.as_slice()) || starts_with(tc.as_slice(), p2.as_slice()) || starts_with(
        tc.as_slice(),
        p3.as_slice(),
    )
}

fn is_blank_exec(l: &Vec<char>) -> (r: bool)
    ensures
        r == is_blank(l@),
{
    let t = crate::text::trim_string(l.as_slice());
    chars_of(t.as_str()).len() == 0
}

/// Extract one rule's bullet from the specification text.
pub fn spec_rule_excerpt(spec: &str, rule: &str) -> (r: Option<String>)
    ensures
        match (r, rule_excerpt_spec(spec@, rule@)) {
            (Some(a), Some(b)) => a@ == b,
            (None, None) => true,
            _ => false,
        },
{
    let cs = chars_of(spec);
    let lines = lines_vec(cs.as_slice());
    let ghost ls = lines_of(spec@);
    proof {
        assert(lines_view(lines@) == ls);
        assert(lines_view(lines@).len() == lines@.len());
    }
    let mut marker = owned("[");
    push_str(&mut marker, rule);
    push_str(&mut marker, "]**");
    let mc = chars_of(marker.as_str());
    let mut i: usize = 0;
    while i < lines.len() && !contains_chars(&lines[i], &mc)
        invariant
            i <= lines@.len(),
            lines_view(lines@) == ls,
            lines@.len() == ls.len(),
            mc@ == "["@ + rule@ + "]**"@,
            first_marked(ls, mc@, 0) == first_marked(ls, mc@, i as int),
        decreases lines.len() - i,
    {
        proof {
            assert(ls[i as int] == lines@[i as int]@);
        }
        i += 1;
    }
    if i >= lines.len() {
        return None;
    }
    proof {
        assert(ls[i as int] == lines@[i as int]@);
        assert(first_marked(ls, mc@, 0) == Some(i as int));
    }
    let mut j: usize = i + 1;
    while j < lines.len() && !stops_rule_exec(&lines[j])
        invariant
            i < j <= lines@.len(),
            lines_view(lines@) == ls,
            lines@.len() == ls.len(),
            rule_end(ls, i + 1) == rule_end(ls, j as int),
        decreases lines.len() - j,
    {
        proof {
            assert(ls[j as int] == lines@[j as int]@);
        }
        j += 1;
    }
    proof {
        if j < lines@.len() {
            assert(ls[j as int] == lines@[j as int]@);
        }
        assert(rule_end(ls, i + 1) == j);
    }
    let mut hi: usize = j;
    assert(drop_blank_tail(ls.subrange(i as int, j as int)) == drop_blank_tail(ls.subrange(i as int, hi as int)));
    while hi > i && is_blank_exec(&lines[hi - 1])
        invariant
            i <= hi <= j,
            j <= lines@.len(),
            lines_view(lines@) == ls,
            drop_blank_tail(ls.subrange(i as int, j as int)) == drop_blank_tail(ls.subrange(i as int, hi as int)),
        decreases hi,
    {
        proof {
            assert(ls[hi - 1] == lines@[hi - 1]@);
            assert(ls.subrange(i as int, hi as int).last() == ls[hi - 1]);
            assert(ls.subrange(i as int, hi as int).drop_last() =~= ls.subrange(i as int, hi - 1));
        }
        hi -= 1;
    }
    proof {
        if hi > i {
            assert(ls[hi - 1] == lines@[hi - 1]@);
            assert(ls.subrange(i as int, hi as int).last() == ls[hi - 1]);
        }
        assert(drop_blank_tail(ls.subrange(i as int, hi as int)) == ls.subrange(i as int, hi as int));
    }
    if hi == i {
        return None;
    }
    Some(join_lines(&lines, i, hi))
}

// ---------- the source excerpt ----------

/// `s` padded with spaces on the left to at least `w` characters.
pub open spec fn pad_left(s: Seq<char>, w: nat) -> Seq<char>
    decreases w - s.len(),
{
    if s.len() >= w {
        s
    } else {
        pad_left(seq![' '] + s, w)
    }
}

/// One numbered excerpt line, the error line marked with `>`.
pub open spec fn excerpt_line(ls: Seq<Seq<char>>, n: nat, err: nat) -> Seq<char> {
    seq![if n == err { '>' } else { ' ' }, ' '] + pad_left(nat_text(n), 4) + " | "@ + ls[n - 1] + "\n"@
}

/// Excerpt lines `lo..n` (1-based, `n` excluded).
pub open spec fn excerpt_upto(ls: Seq<Seq<char>>, lo: nat, n: nat, err: nat) -> Seq<char>
    decreases n,
{
    if n <= lo {
        seq![]
    } else {
        excerpt_upto(ls, lo, (n - 1) as nat, err) + excerpt_line(ls, (n - 1) as nat, err)
    }
}

/// Numbered source lines from four before to three after the line of the
/// span's start.
pub open spec fn source_excerpt_spec(src: Seq<char>, span: Span) -> Seq<char> {
    let e = line_at(src, span.start as nat);
    let ls = lines_of(src);
    let lo: nat = if e >= 5 { (e - 4) as nat } else { 1 };
    let hi: nat = if e + 3 <= ls.len() { e + 3 } else { ls.len() };
    excerpt_upto(ls, lo, hi + 1, e)
}

fn push_padded_left(out: &mut String, s: &str, w: usize)
    ensures
        final(out)@ == old(out)@ + pad_left(s@, w as nat),
{
    let mut k: usize = chars_of(s).len();
    let ghost mut cur = s@;
    let ghost mut pad: Seq<char> = seq![];
    while k < w
        invariant
            out@ == old(out)@ + pad,
            forall|q: int| 0 <= q < pad.len() ==> pad[q] == ' ',
            cur == pad + s@,
            cur.len() == k,
            pad_left(s@, w as nat) == pad_left(cur, w as nat),
        decreases w - k,
    {
        push_char(out, ' ');
        proof {
            assert(seq![' '] + pad =~= pad.push(' '));
            pad = pad.push(' ');
            assert(seq![' '] + cur =~= pad + s@);
            cur = seq![' '] + cur;
        }
        k += 1;
    }
    push_str(out, s);
    assert(out@ =~= old(out)@ + cur);
}

/// Numbered source lines around the span, error line marked with `>`.
pub fn source_excerpt(src: &str, span: Span) -> (r: String)
    requires
        src@.len() < usize::MAX,
    ensures
        r@ == source_excerpt_spec(src@, span),
{
    let (err_line, _) = line_col(src, span.start);
    proof {
        crate::lines::lemma_pos_after_bound(src@.take(crate::lines::chars_before(src@, span.start as nat)));
    }
    let cs = chars_of(src);
    let lines = lines_vec(cs.as_slice());
    let ghost ls = lines_of(src@);
    proof {
        assert(lines_view(lines@) == ls);
        assert(lines_view(lines@).len() == lines@.len());
    }
    proof {
        crate::lines::lemma_lines_len(src@);
    }
    let lo: usize = if err_line >= 5 { err_line - 4 } else { 1 };
    let hi: usize = if err_line <= lines.len() && lines.len() - err_line >= 3 { err_line + 3 } else { lines.len() };
    let mut out = String::new();
    let mut n: usize = lo;
    assert(excerpt_upto(ls, lo as nat, lo as nat, err_line as nat) =~= Seq::<char>::empty());
    while n <= hi
        invariant
            1 <= lo <= n,
            n <= hi + 1 || n == lo,
            hi <= lines@.len(),
            lines@.len() <= src@.len() < usize::MAX,
            lines_view(lines@) == ls,
            out@ == excerpt_upto(ls, lo as nat, n as nat, err_line as nat),
        decreases hi + 1 - n,
    {
        let ghost before = out@;
        if n == err_line {
            push_char(&mut out, '>');
        } else {
            push_char(&mut out, ' ');
        }
        push_char(&mut out, ' ');
        push_padded_left(&mut out, usize_text(n).as_str(), 4);
        push_str(&mut out, " | ");
        let l = &lines[n - 1];
        let ls_str = crate::text::string_of_chars(l.as_slice());
        push_str(&mut out, ls_str.as_str());
        push_str(&mut out, "\n");
        proof {
            assert(ls[n - 1] == l@);
            assert(out@ =~= before + excerpt_line(ls, n as nat, err_line as nat));
        }
        n += 1;
    }
    proof {
        if n == lo && hi + 1 < lo {
            assert(excerpt_upto(ls, lo as nat, (hi + 1) as nat, err_line as nat) =~= Seq::<char>::empty());
        }
    }
    out
}

// ---------- rendering ----------

/// Backslashes turned into slashes.
pub open spec fn slashed(p: Seq<char>) -> Seq<char>
    decreases p.len(),
{
    if p.len() == 0 {
        seq![]
    } else {
        slashed(p.drop_last()).push(if p.last() == '\\' { '/' } else { p.last() })
    }
}

/// A path with backslashes turned into slashes (`replace('\\', "/")`).
pub fn slash_path(p: &str) -> (r: String)
    ensures
        r@ == slashed(p@),
{
    let cs = chars_of(p);
    let mut out = String::new();
    let mut i: usize = 0;
    while i < cs.len()
        invariant
            i <= cs@.len(),
            out@ == slashed(cs@.take(i as int)),
        decreases cs.len() - i,
    {
        let c = cs[i];
        push_char(&mut out, if c == '\\' { '/' } else { c });
        proof {
            assert(cs@.take(i + 1).drop_last() =~= cs@.take(i as int));
        }
        i += 1;
    }
    assert(cs@.take(cs@.len() as int) =~= cs@);
    out
}

pub open spec fn render_spec(d: Diag, src: Seq<char>, path: Seq<char>, json: bool) -> Seq<char> {
    if json {
        "{\"file\":\""@ + slashed(path) + "\",\"ok\":false,\"error\":"@ + diag_json(d, src) + "}"@
    } else {
        diag_human(d, src, path)
    }
}

/// A diagnostic as the command line prints it: a JSON record naming the
/// file, or the human-readable report.
pub fn render(d: &Diag, src: &str, path: &str, json: bool) -> (r: String)
    requires
        src@.len() < usize::MAX,
    ensures
        r@ == render_spec(*d, src@, path@, json),
{
    if json {
        let mut out = owned("{\"file\":\"");
        push_str(&mut out, slash_path(path).as_str());
        push_str(&mut out, "\",\"ok\":false,\"error\":");
        push_str(&mut out, d.to_json(src).as_str());
        push_str(&mut out, "}");
        out
    } else {
        d.render_human(src, path)
    }
}

// ---------- the repair payload ----------

pub open spec fn repair_spec(path: Seq<char>, src: Seq<char>, d: Diag, excerpt: Option<Seq<char>>, spec_file: Seq<char>) -> Seq<char> {
    "# Weft repair context for "@ + path + "\n\n"@ + "## Failure\n\n```json\n"@ + diag_json(d, src) + "\n```\n\n"@
        + match excerpt {
        Some(x) => "## The rule you broke \u{2014} ["@ + d.rule@ + "]\n\n"@ + x + "\n\n"@,
        None => "## Rule ["@ + d.rule@ + "]\n\n("@ + spec_file + " not found near the program file)\n\n"@,
    } + "## Source excerpt\n\n```weft\n"@ + source_excerpt_spec(src, d.span) + "```\n\n"@
        + "## Instruction\n\nFix the program so this failure disappears, keeping all other behavior. Reply with the complete corrected single-file program only.\n"@
}

/// The repair payload for a failure: the diagnostic, the cited rule's text
/// (when the language reference `spec_file` was found), a source excerpt and
/// the instruction.
pub fn repair_payload(path: &str, src: &str, d: &Diag, excerpt: &Option<String>, spec_file: &str) -> (r: String)
    requires
        src@.len() < usize::MAX,
    ensures
        r@ == repair_spec(path@, src@, *d, match excerpt {
            Some(x) => Some(x@),
            None => None,
        }, spec_file@),
{
    let mut out = owned("# Weft repair context for ");
    push_str(&mut out, path);
    push_str(&mut out, "\n\n");
    push_str(&mut out, "## Failure\n\n```json\n");
    push_str(&mut out, d.to_json(src).as_str());
    push_str(&mut out, "\n```\n\n");
    match excerpt {
        Some(x) => {
            push_str(&mut out, "## The rule you broke \u{2014} [");
            push_str(&mut out, d.rule.as_str());
            push_str(&mut out, "]\n\n");
            push_str(&mut out, x.as_str());
            push_str(&mut out, "\n\n");
        },
        None => {
            push_str(&mut out, "## Rule [");
            push_str(&mut out, d.rule.as_str());
            push_str(&mut out, "]\n\n(");
            push_str(&mut out, spec_file);
            push_str(&mut out, " not found near the program file)\n\n");
        },
    }
    push_str(&mut out, "## Source excerpt\n\n```weft\n");
    push_str(&mut out, source_excerpt(src, d.span).as_str());
    push_str(&mut out, "```\n\n");
    push_str(
        &mut out,
        "## Instruction\n\nFix the program so this failure disappears, keeping all other behavior. Reply with the complete corrected single-file program only.\n",
    );
    out
}


// ---------- one-line reports ----------

/// Quotes escaped with a backslash (`replace('"', "\\\"")`).
pub open spec fn quotes_escaped(s: Seq<char>) -> Seq<char>
    decreases s.len(),
{
    if s.len() == 0 {
        seq![]
    } else {
        quotes_escaped(s.drop_last()) + if s.last() == '"' { seq!['\\', '"'] } else { seq![s.last()] }
    }
}

/// Backslashes doubled and quotes escaped with a backslash.
pub open spec fn detail_escaped(s: Seq<char>) -> Seq<char>
    decreases s.len(),
{
    if s.len() == 0 {
        seq![]
    } else {
        detail_escaped(s.drop_last()) + if s.last() == '"' {
            seq!['\\', '"']
        } else if s.last() == '\\' {
            seq!['\\', '\\']
        } else {
            seq![s.last()]
        }
    }
}

fn push_escaped(out: &mut String, s: &str, backslashes: bool)
    ensures
        final(out)@ == old(out)@ + if backslashes { detail_escaped(s@) } else { quotes_escaped(s@) },
{
    let cs = chars_of(s);
    let ghost start = out@;
    let mut i: usize = 0;
    while i < cs.len()
        invariant
            i <= cs@.len(),
            cs@ == s@,
            out@ == start + if backslashes { detail_escaped(cs@.take(i as int)) } else { quotes_escaped(cs@.take(i as int)) },
        decreases cs.len() - i,
    {
        let c = cs[i];
        if c == '"' {
            push_char(out, '\\');
            push_char(out, '"');
        } else if backslashes && c == '\\' {
            push_char(out, '\\');
            push_char(out, '\\');
        } else {
            push_char(out, c);
        }
        proof {
            assert(cs@.take(i + 1).drop_last() =~= cs@.take(i as int));
            assert(cs@.take(i + 1).last() == c);
        }
        i += 1;
        assert(out@ =~= start + if backslashes { detail_escaped(cs@.take(i as int)) } else { quotes_escaped(cs@.take(i as int)) });
    }
    assert(cs@.take(cs@.len() as int) =~= cs@);
}

pub open spec fn parse_report_spec(path: Seq<char>, items: nat, json: bool) -> Seq<char> {
    if json {
        "{\"file\":\""@ + slashed(path) + "\",\"ok\":true,\"items\":"@ + nat_text(items) + "}"@
    } else {
        path + ": ok ("@ + nat_text(items) + " top-level items)"@
    }
}

/// The report of a program that parsed.
pub fn parse_report(path: &str, items: usize, json: bool) -> (r: String)
    ensures
        r@ == parse_report_spec(path@, items as nat, json),
{
    if json {
        let mut out = owned("{\"file\":\"");
        push_str(&mut out, slash_path(path).as_str());
        push_str(&mut out, "\",\"ok\":true,\"items\":");
        push_str(&mut out, usize_text(items).as_str());
        push_str(&mut out, "}");
        out
    } else {
        let mut out = owned(path);
        push_str(&mut out, ": ok (");
        push_str(&mut out, usize_text(items).as_str());
        push_str(&mut out, " top-level items)");
        out
    }
}

pub open spec fn hole_report_spec(path: Seq<char>, lc: (nat, nat), h: HoleNote, json: bool) -> Seq<char> {
    if json {
        "{\"file\":\""@ + slashed(path) + "\",\"note\":\"hole\",\"rule\":\"W27\",\"name\":\""@ + h.name@
            + "\",\"type\":\""@ + quotes_escaped(h.ty@) + "\",\"line\":"@ + nat_text(lc.0) + ",\"col\":"@
            + nat_text(lc.1) + "}"@
    } else {
        "note[W27] "@ + path + ":"@ + nat_text(lc.0) + ":"@ + nat_text(lc.1) + ": hole `?"@ + h.name@
            + "` has type "@ + h.ty@
    }
}

/// The note reported for a typed hole.
pub fn hole_report(path: &str, src: &str, h: &HoleNote, json: bool) -> (r: String)
    requires
        src@.len() < usize::MAX,
    ensures
        r@ == hole_report_spec(path@, crate::lines::line_col_spec(src@, h.span.start as nat), *h, json),
{
    let (line, col) = line_col(src, h.span.start);
    if json {
        let mut out = owned("{\"file\":\"");
        push_str(&mut out, slash_path(path).as_str());
        push_str(&mut out, "\",\"note\":\"hole\",\"rule\":\"W27\",\"name\":\"");
        push_str(&mut out, h.name.as_str());
        push_str(&mut out, "\",\"type\":\"");
        push_escaped(&mut out, h.ty.as_str(), false);
        push_str(&mut out, "\",\"line\":");
        push_str(&mut out, usize_text(line).as_str());
        push_str(&mut out, ",\"col\":");
        push_str(&mut out, usize_text(col).as_str());
        push_str(&mut out, "}");
        out
    } else {
        let mut out = owned("note[W27] ");
        push_str(&mut out, path);
        push_str(&mut out, ":");
        push_str(&mut out, usize_text(line).as_str());
        push_str(&mut out, ":");
        push_str(&mut out, usize_text(col).as_str());
        push_str(&mut out, ": hole `?");
        push_str(&mut out, h.name.as_str());
        push_str(&mut out, "` has type ");
        push_str(&mut out, h.ty.as_str());
        out
    }
}

pub open spec fn check_report_spec(path: Seq<char>, defs: nat, tests: nat, holes: nat, json: bool) -> Seq<char> {
    if json {
        "{\"file\":\""@ + slashed(path) + "\",\"ok\":true,\"defs\":"@ + nat_text(defs) + ",\"tests\":"@
            + nat_text(tests) + ",\"holes\":"@ + nat_text(holes) + "}"@
    } else {
        path + ": ok ("@ + nat_text(defs) + " defs, "@ + nat_text(tests) + " tests"@ + (if holes == 0 {
            seq![]
        } else {
            ", "@ + nat_text(holes) + " holes"@
        }) + ")"@
    }
}

/// The report of a program that checked without errors.
pub fn check_report(path: &str, r: &CheckResult, json: bool) -> (out: String)
    ensures
        out@ == check_report_spec(path@, r.defs as nat, r.tests as nat, r.holes@.len(), json),
{
    let holes = r.holes.len();
    if json {
        let mut out = owned("{\"file\":\"");
        push_str(&mut out, slash_path(path).as_str());
        push_str(&mut out, "\",\"ok\":true,\"defs\":");
        push_str(&mut out, usize_text(r.defs).as_str());
        push_str(&mut out, ",\"tests\":");
        push_str(&mut out, usize_text(r.tests).as_str());
        push_str(&mut out, ",\"holes\":");
        push_str(&mut out, usize_text(holes).as_str());
        push_str(&mut out, "}");
        out
    } else {
        let mut out = owned(path);
        push_str(&mut out, ": ok (");
        push_str(&mut out, usize_text(r.defs).as_str());
        push_str(&mut out, " defs, ");
        push_str(&mut out, usize_text(r.tests).as_str());
        push_str(&mut out, " tests");
        let ghost mid = out@;
        if holes > 0 {
            push_str(&mut out, ", ");
            push_str(&mut out, usize_text(holes).as_str());
            push_str(&mut out, " holes");
        }
        push_str(&mut out, ")");
        out
    }
}

pub open spec fn test_fail_spec(file: Seq<char>, o: TestOutcome, json: bool) -> Seq<char> {
    if json {
        "{\"file\":\""@ + slashed(file) + "\",\"test\":\""@ + o.name@ + "\",\"passed\":false,\"detail\":\""@
            + detail_escaped(opt_text(o.detail)) + "\"}"@
    } else {
        "  FAIL \""@ + o.name@ + "\": "@ + opt_text(o.detail)
    }
}

/// The report of a failed test.
pub fn test_fail_report(file: &str, o: &TestOutcome, json: bool) -> (r: String)
    ensures
        r@ == test_fail_spec(file@, *o, json),
{
    let detail = match &o.detail {
        Some(d) => crate::text::copy_string(d),
        None => String::new(),
    };
    if json {
        let mut out = owned("{\"file\":\"");
        push_str(&mut out, slash_path(file).as_str());
        push_str(&mut out, "\",\"test\":\"");
        push_str(&mut out, o.name.as_str());
        push_str(&mut out, "\",\"passed\":false,\"detail\":\"");
        push_escaped(&mut out, detail.as_str(), true);
        push_str(&mut out, "\"}");
        out
    } else {
        let mut out = owned("  FAIL \"");
        push_str(&mut out, o.name.as_str());
        push_str(&mut out, "\": ");
        push_str(&mut out, detail.as_str());
        out
    }
}

pub open spec fn test_summary_spec(file: Seq<char>, total: nat, passed: nat, json: bool) -> Seq<char> {
    if json {
        "{\"file\":\""@ + slashed(file) + "\",\"tests\":"@ + nat_text(total) + ",\"passed\":"@ + nat_text(passed)
            + "}"@
    } else {
        file + ": "@ + nat_text(passed) + "/"@ + nat_text(total) + " tests passed"@
    }
}

/// How many tests of a file ran and passed.
pub fn test_summary(file: &str, total: usize, passed: usize, json: bool) -> (r: String)
    ensures
        r@ == test_summary_spec(file@, total as nat, passed as nat, json),
{
    if json {
        let mut out = owned("{\"file\":\"");
        push_str(&mut out, slash_path(file).as_str());
        push_str(&mut out, "\",\"tests\":");
        push_str(&mut out, usize_text(total).as_str());
        push_str(&mut out, ",\"passed\":");
        push_str(&mut out, usize_text(passed).as_str());
        push_str(&mut out, "}");
        out
    } else {
        let mut out = owned(file);
        push_str(&mut out, ": ");
        push_str(&mut out, usize_text(passed).as_str());
        push_str(&mut out, "/");
        push_str(&mut out, usize_text(total).as_str());
        push_str(&mut out, " tests passed");
        out
    }
}

} // verus!
