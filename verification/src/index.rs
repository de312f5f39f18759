//! Compiler-derived views of a program for context assembly: signatures and
//! docs (skeleton), dependencies (graph), and slices for editing (ctx).
use vstd::prelude::*;
use crate::check::{count_defs, count_tests};
use crate::ast::{Def, Expr, ExprKind, Item, Param, PatKind, Pattern, Program, Test, TypeDecl, TypeDef, TypeExpr, VariantDef, expr_text, expr_text_spec};
use crate::diag::Span;
use crate::lines::{line_col, line_col_spec, lines_of, lines_vec};
use crate::sort::{lex_lt, str_lt};
use crate::names::{name_set, names_view, owner_in, owner_lookup, pairs_view, set_contains, set_insert, set_remove, set_of, set_add_all, any_shared, sorted_names, sorted_of, strictly_sorted, lemma_names_sorted_of, lemma_sorted_of_is, lemma_name_set_empty};
use crate::text::{cat, cat3, chars_of, copy_string, owned, push_char, push_str, str_eq, usize_text, nat_text, trim_spec, trim_start_spec};

verus! {

// ---------- rendering types and signatures ----------

/// Source-like rendering of a type expression.
pub open spec fn type_text_spec(te: TypeExpr) -> Seq<char>
    decreases te, 1nat,
{
    match te {
        TypeExpr::Name(n, args, _) => if args@.len() == 0 {
            n@
        } else {
            n@ + seq!['['] + types_text(args@) + seq![']']
        },
        TypeExpr::Record(fields, _) => seq!['{'] + type_fields_text(fields@) + seq!['}'],
        TypeExpr::Fn(args, ret, _) => seq!['('] + types_text(args@) + ") -> "@ + type_text_spec(*ret),
    }
}

/// Types rendered and joined by `", "`.
pub open spec fn types_text(ts: Seq<TypeExpr>) -> Seq<char>
    decreases ts, 0nat,
{
    if ts.len() == 0 {
        seq![]
    } else if ts.len() == 1 {
        type_text_spec(ts[0])
    } else {
        type_text_spec(ts[0]) + ", "@ + types_text(ts.subrange(1, ts.len() as int))
    }
}

/// `name: Type` entries joined by `", "`.
pub open spec fn type_fields_text(fs: Seq<(String, TypeExpr)>) -> Seq<char>
    decreases fs, 0nat,
{
    if fs.len() == 0 {
        seq![]
    } else if fs.len() == 1 {
        fs[0].0@ + ": "@ + type_text_spec(fs[0].1)
    } else {
        fs[0].0@ + ": "@ + type_text_spec(fs[0].1) + ", "@ + type_fields_text(fs.subrange(1, fs.len() as int))
    }
}

fn push_type(out: &mut String, te: &TypeExpr)
    ensures
        final(out)@ == old(out)@ + type_text_spec(*te),
    decreases *te, 1nat,
{
    let ghost o = out@;
    match te {
        TypeExpr::Name(n, args, _) => {
            push_str(out, n.as_str());
            if args.len() > 0 {
                push_char(out, '[');
                push_types(out, args);
                push_char(out, ']');
            }
        }
        TypeExpr::Record(fields, _) => {
            push_char(out, '{');
            push_type_fields(out, fields);
            push_char(out, '}');
        }
        TypeExpr::Fn(args, ret, _) => {
            push_char(out, '(');
            push_types(out, args);
            push_str(out, ") -> ");
            push_type(out, ret);
        }
    }
    assert(out@ =~= o + type_text_spec(*te));
}

fn push_types(out: &mut String, ts: &Vec<TypeExpr>)
    ensures
        final(out)@ == old(out)@ + types_text(ts@),
    decreases ts@, 0nat,
{
    let mut i: usize = 0;
    let ghost o = out@;
    assert(ts@.subrange(0, ts@.len() as int) =~= ts@);
    while i < ts.len()
        invariant
            i <= ts@.len(),
            out@ + (if i == 0 { seq![] } else if i < ts@.len() { ", "@ } else { seq![] })
                + types_text(ts@.subrange(i as int, ts@.len() as int)) == o + types_text(ts@),
        decreases ts.len() - i,
    {
        let ghost rest = ts@.subrange(i as int, ts@.len() as int);
        if i > 0 {
            push_str(out, ", ");
        }
        proof {
            assert(decreases_to!(ts@ => ts@[i as int]));
        }
        push_type(out, &ts[i]);
        proof {
            assert(rest[0] == ts@[i as int]);
            assert(rest.subrange(1, rest.len() as int) =~= ts@.subrange(i + 1, ts@.len() as int));
        }
        i += 1;
        proof {
            if i >= ts@.len() {
                assert(ts@.subrange(i as int, ts@.len() as int) =~= Seq::<TypeExpr>::empty());
            }
        }
    }
    proof {
        assert(ts@.subrange(i as int, ts@.len() as int) =~= Seq::<TypeExpr>::empty());
        if i == 0 {
            assert(ts@ =~= Seq::<TypeExpr>::empty());
        }
    }
}

#[verifier::rlimit(40)]
fn push_type_fields(out: &mut String, fs: &Vec<(String, TypeExpr)>)
    ensures
        final(out)@ == old(out)@ + type_fields_text(fs@),
    decreases fs@, 0nat,
{
    let mut i: usize = 0;
    let ghost o = out@;
    assert(fs@.subrange(0, fs@.len() as int) =~= fs@);
    while i < fs.len()
        invariant
            i <= fs@.len(),
            out@ + (if i == 0 { seq![] } else if i < fs@.len() { ", "@ } else { seq![] })
                + type_fields_text(fs@.subrange(i as int, fs@.len() as int)) == o + type_fields_text(fs@),
        decreases fs.len() - i,
    {
        let ghost rest = fs@.subrange(i as int, fs@.len() as int);
        if i > 0 {
            push_str(out, ", ");
        }
        push_str(out, fs[i].0.as_str());
        push_str(out, ": ");
        proof {
            assert(decreases_to!(fs@ => fs@[i as int]));
            assert(decreases_to!(fs@[i as int] => fs@[i as int].1));
        }
        push_type(out, &fs[i].1);
        proof {
            assert(rest[0] == fs@[i as int]);
            assert(rest.subrange(1, rest.len() as int) =~= fs@.subrange(i + 1, fs@.len() as int));
        }
        i += 1;
        proof {
            if i >= fs@.len() {
                assert(fs@.subrange(i as int, fs@.len() as int) =~= Seq::<(String, TypeExpr)>::empty());
            }
        }
    }
    proof {
        assert(fs@.subrange(i as int, fs@.len() as int) =~= Seq::<(String, TypeExpr)>::empty());
        if i == 0 {
            assert(fs@ =~= Seq::<(String, TypeExpr)>::empty());
        }
    }
}

/// Source-like rendering of a type expression.
pub fn type_text(te: &TypeExpr) -> (r: String)
    ensures
        r@ == type_text_spec(*te),
{
    let mut out = String::new();
    push_type(&mut out, te);
    assert(out@ =~= type_text_spec(*te));
    out
}

pub open spec fn param_text_spec(p: Param) -> Seq<char> {
    match p.contract {
        Some(c) => p.name@ + ": "@ + type_text_spec(p.ty) + " where "@ + expr_text_spec(c),
        None => p.name@ + ": "@ + type_text_spec(p.ty),
    }
}

fn param_text(p: &Param) -> (r: String)
    ensures
        r@ == param_text_spec(*p),
{
    let mut out = copy_string(&p.name);
    push_str(&mut out, ": ");
    let t = type_text(&p.ty);
    push_str(&mut out, t.as_str());
    match &p.contract {
        Some(c) => {
            push_str(&mut out, " where ");
            let e = expr_text(c);
            push_str(&mut out, e.as_str());
        }
        None => {}
    }
    assert(out@ =~= param_text_spec(*p));
    out
}

/// Texts joined by `sep`.
pub open spec fn join_spec(parts: Seq<Seq<char>>, sep: Seq<char>) -> Seq<char>
    decreases parts.len(),
{
    if parts.len() == 0 {
        seq![]
    } else if parts.len() == 1 {
        parts[0]
    } else {
        parts[0] + sep + join_spec(parts.subrange(1, parts.len() as int), sep)
    }
}

pub open spec fn params_texts(ps: Seq<Param>) -> Seq<Seq<char>> {
    Seq::new(ps.len(), |k: int| param_text_spec(ps[k]))
}

pub open spec fn names_texts(ns: Seq<String>) -> Seq<Seq<char>> {
    Seq::new(ns.len(), |k: int| ns[k]@)
}

/// Joins texts with a separator.
pub fn join_strings(parts: &Vec<String>, sep: &str) -> (r: String)
    ensures
        r@ == join_spec(names_texts(parts@), sep@),
{
    let ghost pv = names_texts(parts@);
    let mut out = String::new();
    let mut i: usize = 0;
    assert(pv.subrange(0, pv.len() as int) =~= pv);
    while i < parts.len()
        invariant
            i <= parts@.len(),
            pv == names_texts(parts@),
            out@ + (if i == 0 { seq![] } else if i < pv.len() { sep@ } else { seq![] })
                + join_spec(pv.subrange(i as int, pv.len() as int), sep@) == join_spec(pv, sep@),
        decreases parts.len() - i,
    {
        let ghost rest = pv.subrange(i as int, pv.len() as int);
        if i > 0 {
            push_str(&mut out, sep);
        }
        push_str(&mut out, parts[i].as_str());
        proof {
            assert(rest[0] == pv[i as int]);
            assert(rest.subrange(1, rest.len() as int) =~= pv.subrange(i + 1, pv.len() as int));
        }
        i += 1;
        proof {
            if i >= pv.len() {
                assert(pv.subrange(i as int, pv.len() as int) =~= Seq::<Seq<char>>::empty());
            }
        }
    }
    proof {
        assert(pv.subrange(i as int, pv.len() as int) =~= Seq::<Seq<char>>::empty());
        if i == 0 {
            assert(pv =~= Seq::<Seq<char>>::empty());
        }
    }
    out
}

pub open spec fn tparams_text(tps: Seq<String>) -> Seq<char> {
    if tps.len() == 0 {
        seq![]
    } else {
        seq!['['] + join_spec(names_texts(tps), ", "@) + seq![']']
    }
}

/// One-line signature of a definition.
pub open spec fn def_signature_spec(d: Def) -> Seq<char> {
    match d.params {
        Some(ps) => "def "@ + d.name@ + tparams_text(d.tparams@) + seq!['('] + join_spec(params_texts(ps@), ", "@)
            + ") -> "@ + type_text_spec(d.ty),
        None => "def "@ + d.name@ + ": "@ + type_text_spec(d.ty),
    }
}

pub fn def_signature(d: &Def) -> (r: String)
    ensures
        r@ == def_signature_spec(*d),
{
    match &d.params {
        Some(ps) => {
            let mut parts: Vec<String> = Vec::new();
            let mut i: usize = 0;
            while i < ps.len()
                invariant
                    i <= ps@.len(),
                    parts@.len() == i,
                    forall|k: int| 0 <= k < i ==> (#[trigger] parts@[k])@ == param_text_spec(ps@[k]),
                decreases ps.len() - i,
            {
                parts.push(param_text(&ps[i]));
                i += 1;
            }
            let mut out = cat("def ", d.name.as_str());
            if d.tparams.len() > 0 {
                push_char(&mut out, '[');
                let t = join_strings(&d.tparams, ", ");
                push_str(&mut out, t.as_str());
                push_char(&mut out, ']');
            }
            push_char(&mut out, '(');
            let inner = join_strings(&parts, ", ");
            push_str(&mut out, inner.as_str());
            push_str(&mut out, ") -> ");
            let t = type_text(&d.ty);
            push_str(&mut out, t.as_str());
            proof {
                assert(names_texts(parts@) =~= params_texts(ps@));
                assert(out@ =~= def_signature_spec(*d));
            }
            out
        }
        None => {
            let mut out = cat("def ", d.name.as_str());
            push_str(&mut out, ": ");
            let t = type_text(&d.ty);
            push_str(&mut out, t.as_str());
            assert(out@ =~= def_signature_spec(*d));
            out
        }
    }
}

} // verus!

verus! {

/// One-line rendering of a type declaration.
pub open spec fn typedef_text_spec(td: TypeDef) -> Seq<char> {
    "type "@ + td.name@ + " = "@ + match td.decl {
        TypeDecl::Alias(te) => type_text_spec(te),
        TypeDecl::Variants(vs) => join_spec(variants_texts(vs@), " | "@),
        TypeDecl::Nominal { fields, invariant: inv } => seq!['{'] + type_fields_text(fields@) + "} where "@
            + expr_text_spec(inv),
    }
}

pub open spec fn variant_text(v: VariantDef) -> Seq<char> {
    if v.payload@.len() == 0 {
        v.name@
    } else {
        v.name@ + seq!['('] + types_text(v.payload@) + seq![')']
    }
}

pub open spec fn variants_texts(vs: Seq<VariantDef>) -> Seq<Seq<char>> {
    Seq::new(vs.len(), |k: int| variant_text(vs[k]))
}

pub fn typedef_text(td: &TypeDef) -> (r: String)
    ensures
        r@ == typedef_text_spec(*td),
{
    let mut out = cat3("type ", td.name.as_str(), " = ");
    let ghost o = out@;
    match &td.decl {
        TypeDecl::Alias(te) => {
            let t = type_text(te);
            push_str(&mut out, t.as_str());
        }
        TypeDecl::Variants(vs) => {
            let mut parts: Vec<String> = Vec::new();
            let mut i: usize = 0;
            while i < vs.len()
                invariant
                    i <= vs@.len(),
                    parts@.len() == i,
                    forall|k: int| 0 <= k < i ==> (#[trigger] parts@[k])@ == variant_text(vs@[k]),
                decreases vs.len() - i,
            {
                let v = &vs[i];
                let mut s = copy_string(&v.name);
                if v.payload.len() > 0 {
                    push_char(&mut s, '(');
                    let mut inner = String::new();
                    push_types(&mut inner, &v.payload);
                    push_str(&mut s, inner.as_str());
                    push_char(&mut s, ')');
                }
                proof {
                    assert(s@ =~= variant_text(*v));
                }
                parts.push(s);
                i += 1;
            }
            let j = join_strings(&parts, " | ");
            proof {
                assert(names_texts(parts@) =~= variants_texts(vs@));
            }
            push_str(&mut out, j.as_str());
        }
        TypeDecl::Nominal { fields, invariant: inv } => {
            push_char(&mut out, '{');
            let mut inner = String::new();
            push_type_fields(&mut inner, fields);
            push_str(&mut out, inner.as_str());
            push_str(&mut out, "} where ");
            let e = expr_text(inv);
            push_str(&mut out, e.as_str());
        }
    }
    proof {
        assert(out@ =~= typedef_text_spec(*td));
    }
    out
}

// ---------- comments and source slices ----------

/// A line that, after leading whitespace, starts with `#`.
pub open spec fn is_comment_line(l: Seq<char>) -> bool {
    trim_start_spec(l).len() > 0 && trim_start_spec(l)[0] == '#'
}

/// The topmost comment line of the contiguous `#` block ending at line `n`
/// (1-based), as its text after `#`, trimmed.
pub open spec fn doc_top(ls: Seq<Seq<char>>, n: nat) -> Option<Seq<char>>
    decreases n,
{
    if n >= 1 && n - 1 < ls.len() && trim_spec(ls[n - 1]).len() > 0 && trim_spec(ls[n - 1])[0] == '#' {
        match doc_top(ls, (n - 1) as nat) {
            Some(x) => Some(x),
            None => Some(trim_spec(trim_spec(ls[n - 1]).drop_first())),
        }
    } else {
        None
    }
}

/// First line of the contiguous `#` comment block directly above the
/// line holding byte offset `start`, when it is not empty.
pub open spec fn doc_line_spec(src: Seq<char>, start: nat) -> Option<Seq<char>> {
    let line = line_col_spec(src, start).0;
    match doc_top(lines_of(src), if line >= 1 { (line - 1) as nat } else { 0 }) {
        Some(s) => if s.len() > 0 { Some(s) } else { None },
        None => None,
    }
}

pub open spec fn lines_view(ls: Seq<Vec<char>>) -> Seq<Seq<char>> {
    ls.map_values(|l: Vec<char>| l@)
}

/// First line of the contiguous `#` comment block directly above an item.
pub fn doc_line(src: &str, span_start: usize) -> (r: Option<String>)
    requires
        src@.len() < usize::MAX,
    ensures
        match (r, doc_line_spec(src@, span_start as nat)) {
            (Some(s), Some(t)) => s@ == t,
            (None, None) => true,
            _ => false,
        },
{
    let (line, _) = line_col(src, span_start);
    let cs = chars_of(src);
    let lines = lines_vec(cs.as_slice());
    let ghost ls = lines_of(src@);
    proof {
        assert(lines_view(lines@) == ls);
        assert(lines@.len() == ls.len());
    }
    let mut first_doc: Option<String> = None;
    let mut n: usize = if line >= 1 { line - 1 } else { 0 };
    let ghost n0 = n as nat;
    while n >= 1 && n - 1 < lines.len()
        invariant
            lines_view(lines@) == ls,
            lines@.len() == ls.len(),
            doc_top(ls, n0) == (if doc_top(ls, n as nat) is Some { doc_top(ls, n as nat) } else {
                match first_doc {
                    Some(s) => Some(s@),
                    None => None,
                }
            }),
        ensures
            doc_top(ls, n0) == match first_doc {
                Some(s) => Some(s@),
                None => None::<Seq<char>>,
            },
        decreases n,
    {
        let l = &lines[n - 1];
        proof {
            assert(lines_view(lines@)[n - 1] == l@);
        }
        let t = crate::text::trim_string(l.as_slice());
        let tc = chars_of(t.as_str());
        if tc.len() > 0 && tc[0] == '#' {
            let s = crate::text::trim_from(tc.as_slice(), 1);
            proof {
                assert(tc@.subrange(1, tc@.len() as int) =~= tc@.drop_first());
            }
            first_doc = Some(s);
            n -= 1;
        } else {
            break;
        }
    }
    match first_doc {
        Some(s) => {
            if !crate::text::str_is_empty(s.as_str()) {
                Some(s)
            } else {
                None
            }
        }
        None => None,
    }
}

} // verus!

verus! {

/// The first line of an item extended upward over the `#` comment lines
/// directly above it.
pub open spec fn ext_up(ls: Seq<Seq<char>>, f: nat) -> nat
    decreases f,
{
    if f > 1 && f - 2 < ls.len() && is_comment_line(ls[f - 2]) {
        ext_up(ls, (f - 1) as nat)
    } else {
        f
    }
}

pub open spec fn min_nat(a: nat, b: nat) -> nat {
    if a <= b { a } else { b }
}

/// Lines `lo+1 ..= hi` (1-based) of `ls` joined by newlines.
pub open spec fn line_range_text(ls: Seq<Seq<char>>, lo: nat, hi: nat) -> Seq<char> {
    if lo <= hi && hi <= ls.len() {
        join_spec(ls.subrange(lo as int, hi as int), "\n"@)
    } else {
        seq![]
    }
}

/// An item's source from its comment block through its last line.
pub open spec fn item_source_spec(src: Seq<char>, span: Span) -> Seq<char> {
    let ls = lines_of(src);
    let s = line_col_spec(src, span.start as nat).0;
    let e = line_col_spec(src, span.end as nat).0;
    let first = ext_up(ls, s);
    line_range_text(ls, (if first >= 1 { first - 1 } else { 0 }) as nat, min_nat(e, ls.len()))
}

pub fn is_comment(l: &Vec<char>) -> (r: bool)
    ensures
        r == is_comment_line(l@),
{
    let k = crate::text::trim_start_at(l.as_slice(), 0, l.len());
    assert(l@.subrange(0, l@.len() as int) =~= l@);
    proof {
        let t = trim_start_spec(l@);
        if k < l@.len() {
            assert(t[0] == l@[k as int]);
        }
    }
    k < l.len() && l[k] == '#'
}

/// Lines `lo..hi` (0-based, exclusive) joined by newlines.
pub fn join_lines(ls: &Vec<Vec<char>>, lo: usize, hi: usize) -> (r: String)
    requires
        lo <= hi <= ls@.len(),
    ensures
        r@ == join_spec(lines_view(ls@).subrange(lo as int, hi as int), "\n"@),
{
    let ghost pv = lines_view(ls@).subrange(lo as int, hi as int);
    let mut out = String::new();
    let mut i: usize = lo;
    assert(pv.subrange(0, pv.len() as int) =~= pv);
    while i < hi
        invariant
            lo <= i <= hi,
            hi <= ls@.len(),
            pv == lines_view(ls@).subrange(lo as int, hi as int),
            out@ + (if i == lo { seq![] } else if i < hi { "\n"@ } else { seq![] })
                + join_spec(pv.subrange(i - lo, pv.len() as int), "\n"@) == join_spec(pv, "\n"@),
        decreases hi - i,
    {
        let ghost rest = pv.subrange(i - lo, pv.len() as int);
        if i > lo {
            push_str(&mut out, "\n");
        }
        let l = &ls[i];
        let s = crate::text::slice_to_string(l.as_slice(), 0, l.len());
        proof {
            assert(l@.subrange(0, l@.len() as int) =~= l@);
            assert(rest[0] == pv[i - lo]);
            assert(pv[i - lo] == l@);
            assert(rest.subrange(1, rest.len() as int) =~= pv.subrange(i - lo + 1, pv.len() as int));
        }
        push_str(&mut out, s.as_str());
        i += 1;
        proof {
            if i >= hi {
                assert(pv.subrange(i - lo, pv.len() as int) =~= Seq::<Seq<char>>::empty());
            }
        }
    }
    proof {
        assert(pv.subrange(i - lo, pv.len() as int) =~= Seq::<Seq<char>>::empty());
        if i == lo {
            assert(pv =~= Seq::<Seq<char>>::empty());
        }
    }
    out
}

/// First line (1-based) of an item with its comment block.
pub fn extend_up(ls: &Vec<Vec<char>>, start: usize) -> (r: usize)
    ensures
        r == ext_up(lines_view(ls@), start as nat),
{
    let mut first = start;
    while first > 1 && first - 2 < ls.len() && is_comment(&ls[first - 2])
        invariant
            first <= start,
            ext_up(lines_view(ls@), start as nat) == ext_up(lines_view(ls@), first as nat),
        decreases first,
    {
        proof {
            assert(lines_view(ls@)[first - 2] == ls@[first - 2]@);
        }
        first -= 1;
    }
    proof {
        if first > 1 && first - 2 < ls@.len() {
            assert(lines_view(ls@)[first - 2] == ls@[first - 2]@);
        }
    }
    first
}

/// Slice an item's source, extended upward to include its comment block.
pub fn item_source(src: &str, span: Span) -> (r: String)
    requires
        src@.len() < usize::MAX,
    ensures
        r@ == item_source_spec(src@, span),
{
    let (start_line, _) = line_col(src, span.start);
    let (end_line, _) = line_col(src, span.end);
    let cs = chars_of(src);
    let lines = lines_vec(cs.as_slice());
    proof {
        assert(lines_view(lines@) == lines_of(src@));
    }
    let first = extend_up(&lines, start_line);
    let hi = if end_line <= lines.len() { end_line } else { lines.len() };
    let lo = if first >= 1 { first - 1 } else { 0 };
    if lo <= hi {
        join_lines(&lines, lo, hi)
    } else {
        String::new()
    }
}

// ---------- references ----------

/// Program-defined names a type mentions.
pub open spec fn type_refs(te: TypeExpr, known: Set<Seq<char>>) -> Set<Seq<char>>
    decreases te, 1nat,
{
    match te {
        TypeExpr::Name(n, args, _) => (if known.contains(n@) { set![n@] } else { Set::empty() }).union(
            types_refs(args@, known),
        ),
        TypeExpr::Record(fields, _) => fields_refs(fields@, known),
        TypeExpr::Fn(args, ret, _) => types_refs(args@, known).union(type_refs(*ret, known)),
    }
}

pub open spec fn types_refs(ts: Seq<TypeExpr>, known: Set<Seq<char>>) -> Set<Seq<char>>
    decreases ts, 0nat,
{
    if ts.len() == 0 {
        Set::empty()
    } else {
        type_refs(ts[0], known).union(types_refs(ts.subrange(1, ts.len() as int), known))
    }
}

pub open spec fn fields_refs(fs: Seq<(String, TypeExpr)>, known: Set<Seq<char>>) -> Set<Seq<char>>
    decreases fs, 0nat,
{
    if fs.len() == 0 {
        Set::empty()
    } else {
        type_refs(fs[0].1, known).union(fields_refs(fs.subrange(1, fs.len() as int), known))
    }
}

/// Adds the program-defined names a type mentions.
pub fn refs_of_type(te: &TypeExpr, known: &Vec<String>, out: &mut Vec<String>)
    requires
        sorted_names(old(out)@),
    ensures
        sorted_names(final(out)@),
        name_set(final(out)@) == name_set(old(out)@).union(type_refs(*te, name_set(known@))),
    decreases *te, 1nat,
{
    let ghost o = name_set(out@);
    match te {
        TypeExpr::Name(n, args, _) => {
            if set_contains(known, n.as_str()) {
                set_insert(out, copy_string(n));
            }
            let ghost mid = name_set(out@);
            refs_of_types(args, known, out);
            proof {
                assert(name_set(out@) =~= o.union(type_refs(*te, name_set(known@))));
            }
        }
        TypeExpr::Record(fields, _) => {
            refs_of_fields(fields, known, out);
        }
        TypeExpr::Fn(args, ret, _) => {
            refs_of_types(args, known, out);
            refs_of_type(ret, known, out);
            proof {
                assert(name_set(out@) =~= o.union(type_refs(*te, name_set(known@))));
            }
        }
    }
}

fn refs_of_types(ts: &Vec<TypeExpr>, known: &Vec<String>, out: &mut Vec<String>)
    requires
        sorted_names(old(out)@),
    ensures
        sorted_names(final(out)@),
        name_set(final(out)@) == name_set(old(out)@).union(types_refs(ts@, name_set(known@))),
    decreases ts@, 0nat,
{
    let ghost o = name_set(out@);
    let ghost kn = name_set(known@);
    let mut i: usize = 0;
    assert(ts@.subrange(0, ts@.len() as int) =~= ts@);
    while i < ts.len()
        invariant
            i <= ts@.len(),
            sorted_names(out@),
            kn == name_set(known@),
            name_set(out@).union(types_refs(ts@.subrange(i as int, ts@.len() as int), kn)) == o.union(types_refs(ts@, kn)),
        decreases ts.len() - i,
    {
        let ghost rest = ts@.subrange(i as int, ts@.len() as int);
        let ghost before = name_set(out@);
        proof {
            assert(decreases_to!(ts@ => ts@[i as int]));
        }
        refs_of_type(&ts[i], known, out);
        proof {
            assert(rest[0] == ts@[i as int]);
            assert(rest.subrange(1, rest.len() as int) =~= ts@.subrange(i + 1, ts@.len() as int));
            assert(name_set(out@).union(types_refs(ts@.subrange(i + 1, ts@.len() as int), kn)) =~= before.union(types_refs(rest, kn)));
        }
        i += 1;
    }
    proof {
        assert(ts@.subrange(i as int, ts@.len() as int) =~= Seq::<TypeExpr>::empty());
        assert(name_set(out@).union(Set::<Seq<char>>::empty()) =~= name_set(out@));
    }
}

fn refs_of_fields(fs: &Vec<(String, TypeExpr)>, known: &Vec<String>, out: &mut Vec<String>)
    requires
        sorted_names(old(out)@),
    ensures
        sorted_names(final(out)@),
        name_set(final(out)@) == name_set(old(out)@).union(fields_refs(fs@, name_set(known@))),
    decreases fs@, 0nat,
{
    let ghost o = name_set(out@);
    let ghost kn = name_set(known@);
    let mut i: usize = 0;
    assert(fs@.subrange(0, fs@.len() as int) =~= fs@);
    while i < fs.len()
        invariant
            i <= fs@.len(),
            sorted_names(out@),
            kn == name_set(known@),
            name_set(out@).union(fields_refs(fs@.subrange(i as int, fs@.len() as int), kn)) == o.union(fields_refs(fs@, kn)),
        decreases fs.len() - i,
    {
        let ghost rest = fs@.subrange(i as int, fs@.len() as int);
        let ghost before = name_set(out@);
        proof {
            assert(decreases_to!(fs@ => fs@[i as int]));
            assert(decreases_to!(fs@[i as int] => fs@[i as int].1));
        }
        refs_of_type(&fs[i].1, known, out);
        proof {
            assert(rest[0] == fs@[i as int]);
            assert(rest.subrange(1, rest.len() as int) =~= fs@.subrange(i + 1, fs@.len() as int));
            assert(name_set(out@).union(fields_refs(fs@.subrange(i + 1, fs@.len() as int), kn)) =~= before.union(fields_refs(rest, kn)));
        }
        i += 1;
    }
    proof {
        assert(fs@.subrange(i as int, fs@.len() as int) =~= Seq::<(String, TypeExpr)>::empty());
        assert(name_set(out@).union(Set::<Seq<char>>::empty()) =~= name_set(out@));
    }
}

} // verus!

verus! {

/// `{n}` when `n` is a known name, else nothing.
pub open spec fn known_ref(n: Seq<char>, known: Set<Seq<char>>) -> Set<Seq<char>> {
    if known.contains(n) { set![n] } else { Set::empty() }
}

/// Program-defined names an expression references: variables, constructors
/// and record names that are known.
pub open spec fn expr_refs(e: Expr, known: Set<Seq<char>>) -> Set<Seq<char>>
    decreases e, 1nat,
{
    match e.kind {
        ExprKind::Var(n) => known_ref(n@, known),
        ExprKind::Ctor(n, args) => known_ref(n@, known).union(exprs_refs(args@, known)),
        ExprKind::NamedRec { name, spread, fields } => known_ref(name@, known).union(
            match spread {
                Some(b) => expr_refs(*b, known),
                None => Set::empty(),
            },
        ).union(field_exprs_refs(fields@, known)),
        ExprKind::Record { spread, fields } => (match spread {
            Some(b) => expr_refs(*b, known),
            None => Set::empty(),
        }).union(field_exprs_refs(fields@, known)),
        ExprKind::List(es) => exprs_refs(es@, known),
        ExprKind::Field(b, _) => expr_refs(*b, known),
        ExprKind::Call(c, args) => expr_refs(*c, known).union(exprs_refs(args@, known)),
        ExprKind::Lambda { body, .. } => expr_refs(*body, known),
        ExprKind::Block { lets, tail } => field_exprs_refs(lets@, known).union(expr_refs(*tail, known)),
        ExprKind::If { cond, then, els } => expr_refs(*cond, known).union(expr_refs(*then, known)).union(
            expr_refs(*els, known),
        ),
        ExprKind::Match { scrutinee, arms } => expr_refs(*scrutinee, known).union(arms_refs(arms@, known)),
        ExprKind::Bin(_, l, r) => expr_refs(*l, known).union(expr_refs(*r, known)),
        ExprKind::NotOp(i) => expr_refs(*i, known),
        ExprKind::NegOp(i) => expr_refs(*i, known),
        ExprKind::Propagate(i) => expr_refs(*i, known),
        ExprKind::Int(_) | ExprKind::Float(_) | ExprKind::Bool(_) | ExprKind::Text(_) | ExprKind::Unit
        | ExprKind::Hole(_) => Set::empty(),
    }
}

pub open spec fn exprs_refs(es: Seq<Expr>, known: Set<Seq<char>>) -> Set<Seq<char>>
    decreases es, 0nat,
{
    if es.len() == 0 {
        Set::empty()
    } else {
        expr_refs(es[0], known).union(exprs_refs(es.subrange(1, es.len() as int), known))
    }
}

pub open spec fn field_exprs_refs(fs: Seq<(String, Expr)>, known: Set<Seq<char>>) -> Set<Seq<char>>
    decreases fs, 0nat,
{
    if fs.len() == 0 {
        Set::empty()
    } else {
        expr_refs(fs[0].1, known).union(field_exprs_refs(fs.subrange(1, fs.len() as int), known))
    }
}

pub open spec fn arms_refs(arms: Seq<(Pattern, Expr)>, known: Set<Seq<char>>) -> Set<Seq<char>>
    decreases arms, 0nat,
{
    if arms.len() == 0 {
        Set::empty()
    } else {
        pattern_refs(arms[0].0, known).union(expr_refs(arms[0].1, known)).union(
            arms_refs(arms.subrange(1, arms.len() as int), known),
        )
    }
}

/// `c` is an immediate sub-expression of `e`.
pub open spec fn is_child(c: Expr, e: Expr) -> bool {
    match e.kind {
        ExprKind::Ctor(_, args) => exists|i: int| 0 <= i < args@.len() && args@[i] == c,
        ExprKind::List(es) => exists|i: int| 0 <= i < es@.len() && es@[i] == c,
        ExprKind::Record { spread, fields } => spread == Some(Box::new(c)) || exists|i: int|
            0 <= i < fields@.len() && fields@[i].1 == c,
        ExprKind::NamedRec { spread, fields, .. } => spread == Some(Box::new(c)) || exists|i: int|
            0 <= i < fields@.len() && fields@[i].1 == c,
        ExprKind::Field(b, _) => *b == c,
        ExprKind::Call(f, args) => *f == c || exists|i: int| 0 <= i < args@.len() && args@[i] == c,
        ExprKind::Lambda { body, .. } => *body == c,
        ExprKind::Block { lets, tail } => *tail == c || exists|i: int| 0 <= i < lets@.len() && lets@[i].1 == c,
        ExprKind::If { cond, then, els } => *cond == c || *then == c || *els == c,
        ExprKind::Match { scrutinee, arms } => *scrutinee == c || exists|i: int| 0 <= i < arms@.len() && arms@[i].1 == c,
        ExprKind::Bin(_, l, r) => *l == c || *r == c,
        ExprKind::NotOp(i) => *i == c,
        ExprKind::NegOp(i) => *i == c,
        ExprKind::Propagate(i) => *i == c,
        _ => false,
    }
}

/// The name an expression itself mentions: a variable, a constructor or a
/// record type.
pub open spec fn head_name(e: Expr) -> Option<Seq<char>> {
    match e.kind {
        ExprKind::Var(n) => Some(n@),
        ExprKind::Ctor(n, _) => Some(n@),
        ExprKind::NamedRec { name, .. } => Some(name@),
        _ => None,
    }
}

proof fn lemma_exprs_refs_has(es: Seq<Expr>, i: int, known: Set<Seq<char>>)
    requires
        0 <= i < es.len(),
    ensures
        expr_refs(es[i], known).subset_of(exprs_refs(es, known)),
    decreases es.len(),
{
    if i > 0 {
        let rest = es.subrange(1, es.len() as int);
        lemma_exprs_refs_has(rest, i - 1, known);
        assert(rest[i - 1] == es[i]);
    }
}

proof fn lemma_field_refs_has(fs: Seq<(String, Expr)>, i: int, known: Set<Seq<char>>)
    requires
        0 <= i < fs.len(),
    ensures
        expr_refs(fs[i].1, known).subset_of(field_exprs_refs(fs, known)),
    decreases fs.len(),
{
    if i > 0 {
        let rest = fs.subrange(1, fs.len() as int);
        lemma_field_refs_has(rest, i - 1, known);
        assert(rest[i - 1] == fs[i]);
    }
}

proof fn lemma_arms_refs_has(arms: Seq<(Pattern, Expr)>, i: int, known: Set<Seq<char>>)
    requires
        0 <= i < arms.len(),
    ensures
        expr_refs(arms[i].1, known).subset_of(arms_refs(arms, known)),
        pattern_refs(arms[i].0, known).subset_of(arms_refs(arms, known)),
    decreases arms.len(),
{
    if i > 0 {
        let rest = arms.subrange(1, arms.len() as int);
        lemma_arms_refs_has(rest, i - 1, known);
        assert(rest[i - 1] == arms[i]);
    }
}

/// `p` is the pattern of one of the arms of the match `e`.
pub open spec fn is_arm_pattern(p: Pattern, e: Expr) -> bool {
    match e.kind {
        ExprKind::Match { arms, .. } => exists|i: int| 0 <= i < arms@.len() && arms@[i].0 == p,
        _ => false,
    }
}

/// `q` is an immediate sub-pattern of `p`.
pub open spec fn is_sub_pattern(q: Pattern, p: Pattern) -> bool {
    match p.kind {
        PatKind::Ctor(_, subs) => exists|i: int| 0 <= i < subs@.len() && subs@[i] == q,
        PatKind::List { heads, .. } => exists|i: int| 0 <= i < heads@.len() && heads@[i] == q,
        _ => false,
    }
}

proof fn lemma_patterns_refs_has(ps: Seq<Pattern>, i: int, known: Set<Seq<char>>)
    requires
        0 <= i < ps.len(),
    ensures
        pattern_refs(ps[i], known).subset_of(patterns_refs(ps, known)),
    decreases ps.len(),
{
    if i > 0 {
        let rest = ps.subrange(1, ps.len() as int);
        lemma_patterns_refs_has(rest, i - 1, known);
        assert(rest[i - 1] == ps[i]);
    }
}

/// The references of a pattern take in a known constructor name it is
/// headed by and all references of its sub-patterns.
pub proof fn lemma_pattern_refs_cover(p: Pattern, known: Set<Seq<char>>)
    ensures
        match p.kind {
            PatKind::Ctor(n, _) => known.contains(n@) ==> pattern_refs(p, known).contains(n@),
            _ => true,
        },
        forall|q: Pattern| #[trigger] is_sub_pattern(q, p) ==> pattern_refs(q, known).subset_of(pattern_refs(p, known)),
{
    assert forall|q: Pattern| #[trigger] is_sub_pattern(q, p) implies pattern_refs(q, known).subset_of(pattern_refs(p, known)) by {
        match p.kind {
            PatKind::Ctor(_, subs) => {
                let i = choose|i: int| 0 <= i < subs@.len() && subs@[i] == q;
                lemma_patterns_refs_has(subs@, i, known);
            },
            PatKind::List { heads, .. } => {
                let i = choose|i: int| 0 <= i < heads@.len() && heads@[i] == q;
                lemma_patterns_refs_has(heads@, i, known);
            },
            _ => {},
        }
    }
}

/// The references of an expression take in every known name it mentions
/// itself and all references of each of its sub-expressions, so every known
/// variable, constructor or record name anywhere inside it.
pub proof fn lemma_refs_cover(e: Expr, known: Set<Seq<char>>)
    ensures
        match head_name(e) {
            Some(n) => known.contains(n) ==> expr_refs(e, known).contains(n),
            None => true,
        },
        forall|c: Expr| #[trigger] is_child(c, e) ==> expr_refs(c, known).subset_of(expr_refs(e, known)),
        forall|p: Pattern| #[trigger] is_arm_pattern(p, e) ==> pattern_refs(p, known).subset_of(expr_refs(e, known)),
{
    assert forall|p: Pattern| #[trigger] is_arm_pattern(p, e) implies pattern_refs(p, known).subset_of(expr_refs(e, known)) by {
        match e.kind {
            ExprKind::Match { arms, .. } => {
                let i = choose|i: int| 0 <= i < arms@.len() && arms@[i].0 == p;
                lemma_arms_refs_has(arms@, i, known);
            },
            _ => {},
        }
    }
    assert forall|c: Expr| #[trigger] is_child(c, e) implies expr_refs(c, known).subset_of(expr_refs(e, known)) by {
        match e.kind {
            ExprKind::Ctor(_, args) => {
                let i = choose|i: int| 0 <= i < args@.len() && args@[i] == c;
                lemma_exprs_refs_has(args@, i, known);
            },
            ExprKind::List(es) => {
                let i = choose|i: int| 0 <= i < es@.len() && es@[i] == c;
                lemma_exprs_refs_has(es@, i, known);
            },
            ExprKind::Record { spread, fields } => {
                if !(spread == Some(Box::new(c))) {
                    let i = choose|i: int| 0 <= i < fields@.len() && fields@[i].1 == c;
                    lemma_field_refs_has(fields@, i, known);
                }
            },
            ExprKind::NamedRec { spread, fields, .. } => {
                if !(spread == Some(Box::new(c))) {
                    let i = choose|i: int| 0 <= i < fields@.len() && fields@[i].1 == c;
                    lemma_field_refs_has(fields@, i, known);
                }
            },
            ExprKind::Call(f, args) => {
                if *f != c {
                    let i = choose|i: int| 0 <= i < args@.len() && args@[i] == c;
                    lemma_exprs_refs_has(args@, i, known);
                }
            },
            ExprKind::Block { lets, tail } => {
                if *tail != c {
                    let i = choose|i: int| 0 <= i < lets@.len() && lets@[i].1 == c;
                    lemma_field_refs_has(lets@, i, known);
                }
            },
            ExprKind::Match { scrutinee, arms } => {
                if *scrutinee != c {
                    let i = choose|i: int| 0 <= i < arms@.len() && arms@[i].1 == c;
                    lemma_arms_refs_has(arms@, i, known);
                }
            },
            _ => {},
        }
    }
}

/// Known constructor names a pattern mentions.
pub open spec fn pattern_refs(p: Pattern, known: Set<Seq<char>>) -> Set<Seq<char>>
    decreases p, 1nat,
{
    match p.kind {
        PatKind::Ctor(n, subs) => known_ref(n@, known).union(patterns_refs(subs@, known)),
        PatKind::List { heads, .. } => patterns_refs(heads@, known),
        _ => Set::empty(),
    }
}

pub open spec fn patterns_refs(ps: Seq<Pattern>, known: Set<Seq<char>>) -> Set<Seq<char>>
    decreases ps, 0nat,
{
    if ps.len() == 0 {
        Set::empty()
    } else {
        pattern_refs(ps[0], known).union(patterns_refs(ps.subrange(1, ps.len() as int), known))
    }
}

fn add_if_known(n: &String, known: &Vec<String>, out: &mut Vec<String>)
    requires
        sorted_names(old(out)@),
    ensures
        sorted_names(final(out)@),
        name_set(final(out)@) == name_set(old(out)@).union(known_ref(n@, name_set(known@))),
{
    if set_contains(known, n.as_str()) {
        set_insert(out, copy_string(n));
        assert(name_set(out@) =~= name_set(old(out)@).union(known_ref(n@, name_set(known@))));
    } else {
        assert(name_set(out@) =~= name_set(old(out)@).union(known_ref(n@, name_set(known@))));
    }
}

/// Adds the program-defined names an expression references.
pub fn refs_of_expr(e: &Expr, known: &Vec<String>, out: &mut Vec<String>)
    requires
        sorted_names(old(out)@),
    ensures
        sorted_names(final(out)@),
        name_set(final(out)@) == name_set(old(out)@).union(expr_refs(*e, name_set(known@))),
    decreases *e, 1nat,
{
    let ghost o = name_set(out@);
    let ghost kn = name_set(known@);
    match &e.kind {
        ExprKind::Var(n) => add_if_known(n, known, out),
        ExprKind::Ctor(n, args) => {
            add_if_known(n, known, out);
            refs_of_exprs(args, known, out);
            assert(name_set(out@) =~= o.union(expr_refs(*e, kn)));
        }
        ExprKind::NamedRec { name, spread, fields } => {
            add_if_known(name, known, out);
            match spread {
                Some(b) => refs_of_expr(b, known, out),
                None => {},
            }
            refs_of_field_exprs(fields, known, out);
            assert(name_set(out@) =~= o.union(expr_refs(*e, kn)));
        }
        ExprKind::Record { spread, fields } => {
            match spread {
                Some(b) => refs_of_expr(b, known, out),
                None => {},
            }
            refs_of_field_exprs(fields, known, out);
            assert(name_set(out@) =~= o.union(expr_refs(*e, kn)));
        }
        ExprKind::List(es) => refs_of_exprs(es, known, out),
        ExprKind::Field(b, _) => refs_of_expr(b, known, out),
        ExprKind::Call(c, args) => {
            refs_of_expr(c, known, out);
            refs_of_exprs(args, known, out);
            assert(name_set(out@) =~= o.union(expr_refs(*e, kn)));
        }
        ExprKind::Lambda { body, .. } => refs_of_expr(body, known, out),
        ExprKind::Block { lets, tail } => {
            refs_of_field_exprs(lets, known, out);
            refs_of_expr(tail, known, out);
            assert(name_set(out@) =~= o.union(expr_refs(*e, kn)));
        }
        ExprKind::If { cond, then, els } => {
            refs_of_expr(cond, known, out);
            refs_of_expr(then, known, out);
            refs_of_expr(els, known, out);
            assert(name_set(out@) =~= o.union(expr_refs(*e, kn)));
        }
        ExprKind::Match { scrutinee, arms } => {
            refs_of_expr(scrutinee, known, out);
            refs_of_arms(arms, known, out);
            assert(name_set(out@) =~= o.union(expr_refs(*e, kn)));
        }
        ExprKind::Bin(_, l, r) => {
            refs_of_expr(l, known, out);
            refs_of_expr(r, known, out);
            assert(name_set(out@) =~= o.union(expr_refs(*e, kn)));
        }
        ExprKind::NotOp(i) => refs_of_expr(i, known, out),
        ExprKind::NegOp(i) => refs_of_expr(i, known, out),
        ExprKind::Propagate(i) => refs_of_expr(i, known, out),
        ExprKind::Int(_) | ExprKind::Float(_) | ExprKind::Bool(_) | ExprKind::Text(_) | ExprKind::Unit
        | ExprKind::Hole(_) => {
            assert(name_set(out@) =~= o.union(expr_refs(*e, kn)));
        }
    }
}

fn refs_of_exprs(es: &Vec<Expr>, known: &Vec<String>, out: &mut Vec<String>)
    requires
        sorted_names(old(out)@),
    ensures
        sorted_names(final(out)@),
        name_set(final(out)@) == name_set(old(out)@).union(exprs_refs(es@, name_set(known@))),
    decreases es@, 0nat,
{
    let ghost o = name_set(out@);
    let ghost kn = name_set(known@);
    let mut i: usize = 0;
    assert(es@.subrange(0, es@.len() as int) =~= es@);
    while i < es.len()
        invariant
            i <= es@.len(),
            sorted_names(out@),
            kn == name_set(known@),
            name_set(out@).union(exprs_refs(es@.subrange(i as int, es@.len() as int), kn)) == o.union(exprs_refs(es@, kn)),
        decreases es.len() - i,
    {
        let ghost rest = es@.subrange(i as int, es@.len() as int);
        let ghost before = name_set(out@);
        proof {
            assert(decreases_to!(es@ => es@[i as int]));
        }
        refs_of_expr(&es[i], known, out);
        proof {
            assert(rest[0] == es@[i as int]);
            assert(rest.subrange(1, rest.len() as int) =~= es@.subrange(i + 1, es@.len() as int));
            assert(name_set(out@).union(exprs_refs(es@.subrange(i + 1, es@.len() as int), kn)) =~= before.union(exprs_refs(rest, kn)));
        }
        i += 1;
    }
    proof {
        assert(es@.subrange(i as int, es@.len() as int) =~= Seq::<Expr>::empty());
        assert(name_set(out@).union(Set::<Seq<char>>::empty()) =~= name_set(out@));
    }
}

fn refs_of_field_exprs(fs: &Vec<(String, Expr)>, known: &Vec<String>, out: &mut Vec<String>)
    requires
        sorted_names(old(out)@),
    ensures
        sorted_names(final(out)@),
        name_set(final(out)@) == name_set(old(out)@).union(field_exprs_refs(fs@, name_set(known@))),
    decreases fs@, 0nat,
{
    let ghost o = name_set(out@);
    let ghost kn = name_set(known@);
    let mut i: usize = 0;
    assert(fs@.subrange(0, fs@.len() as int) =~= fs@);
    while i < fs.len()
        invariant
            i <= fs@.len(),
            sorted_names(out@),
            kn == name_set(known@),
            name_set(out@).union(field_exprs_refs(fs@.subrange(i as int, fs@.len() as int), kn)) == o.union(field_exprs_refs(fs@, kn)),
        decreases fs.len() - i,
    {
        let ghost rest = fs@.subrange(i as int, fs@.len() as int);
        let ghost before = name_set(out@);
        proof {
            assert(decreases_to!(fs@ => fs@[i as int]));
            assert(decreases_to!(fs@[i as int] => fs@[i as int].1));
        }
        refs_of_expr(&fs[i].1, known, out);
        proof {
            assert(rest[0] == fs@[i as int]);
            assert(rest.subrange(1, rest.len() as int) =~= fs@.subrange(i + 1, fs@.len() as int));
            assert(name_set(out@).union(field_exprs_refs(fs@.subrange(i + 1, fs@.len() as int), kn)) =~= before.union(field_exprs_refs(rest, kn)));
        }
        i += 1;
    }
    proof {
        assert(fs@.subrange(i as int, fs@.len() as int) =~= Seq::<(String, Expr)>::empty());
        assert(name_set(out@).union(Set::<Seq<char>>::empty()) =~= name_set(out@));
    }
}

fn refs_of_arms(arms: &Vec<(Pattern, Expr)>, known: &Vec<String>, out: &mut Vec<String>)
    requires
        sorted_names(old(out)@),
    ensures
        sorted_names(final(out)@),
        name_set(final(out)@) == name_set(old(out)@).union(arms_refs(arms@, name_set(known@))),
    decreases arms@, 0nat,
{
    let ghost o = name_set(out@);
    let ghost kn = name_set(known@);
    let mut i: usize = 0;
    assert(arms@.subrange(0, arms@.len() as int) =~= arms@);
    while i < arms.len()
        invariant
            i <= arms@.len(),
            sorted_names(out@),
            kn == name_set(known@),
            name_set(out@).union(arms_refs(arms@.subrange(i as int, arms@.len() as int), kn)) == o.union(arms_refs(arms@, kn)),
        decreases arms.len() - i,
    {
        let ghost rest = arms@.subrange(i as int, arms@.len() as int);
        let ghost before = name_set(out@);
        proof {
            assert(decreases_to!(arms@ => arms@[i as int]));
            assert(decreases_to!(arms@[i as int] => arms@[i as int].1));
        }
        refs_of_pattern(&arms[i].0, known, out);
        refs_of_expr(&arms[i].1, known, out);
        proof {
            assert(rest[0] == arms@[i as int]);
            assert(rest.subrange(1, rest.len() as int) =~= arms@.subrange(i + 1, arms@.len() as int));
            assert(name_set(out@).union(arms_refs(arms@.subrange(i + 1, arms@.len() as int), kn)) =~= before.union(arms_refs(rest, kn)));
        }
        i += 1;
    }
    proof {
        assert(arms@.subrange(i as int, arms@.len() as int) =~= Seq::<(Pattern, Expr)>::empty());
        assert(name_set(out@).union(Set::<Seq<char>>::empty()) =~= name_set(out@));
    }
}

/// Adds the program-defined constructor names a pattern mentions.
pub fn refs_of_pattern(p: &Pattern, known: &Vec<String>, out: &mut Vec<String>)
    requires
        sorted_names(old(out)@),
    ensures
        sorted_names(final(out)@),
        name_set(final(out)@) == name_set(old(out)@).union(pattern_refs(*p, name_set(known@))),
    decreases *p, 1nat,
{
    let ghost o = name_set(out@);
    let ghost kn = name_set(known@);
    match &p.kind {
        PatKind::Ctor(n, subs) => {
            add_if_known(n, known, out);
            refs_of_patterns(subs, known, out);
            assert(name_set(out@) =~= o.union(pattern_refs(*p, kn)));
        }
        PatKind::List { heads, .. } => refs_of_patterns(heads, known, out),
        _ => {
            assert(name_set(out@) =~= o.union(pattern_refs(*p, kn)));
        }
    }
}

fn refs_of_patterns(ps: &Vec<Pattern>, known: &Vec<String>, out: &mut Vec<String>)
    requires
        sorted_names(old(out)@),
    ensures
        sorted_names(final(out)@),
        name_set(final(out)@) == name_set(old(out)@).union(patterns_refs(ps@, name_set(known@))),
    decreases ps@, 0nat,
{
    let ghost o = name_set(out@);
    let ghost kn = name_set(known@);
    let mut i: usize = 0;
    assert(ps@.subrange(0, ps@.len() as int) =~= ps@);
    while i < ps.len()
        invariant
            i <= ps@.len(),
            sorted_names(out@),
            kn == name_set(known@),
            name_set(out@).union(patterns_refs(ps@.subrange(i as int, ps@.len() as int), kn)) == o.union(patterns_refs(ps@, kn)),
        decreases ps.len() - i,
    {
        let ghost rest = ps@.subrange(i as int, ps@.len() as int);
        let ghost before = name_set(out@);
        proof {
            assert(decreases_to!(ps@ => ps@[i as int]));
        }
        refs_of_pattern(&ps[i], known, out);
        proof {
            assert(rest[0] == ps@[i as int]);
            assert(rest.subrange(1, rest.len() as int) =~= ps@.subrange(i + 1, ps@.len() as int));
            assert(name_set(out@).union(patterns_refs(ps@.subrange(i + 1, ps@.len() as int), kn)) =~= before.union(patterns_refs(rest, kn)));
        }
        i += 1;
    }
    proof {
        assert(ps@.subrange(i as int, ps@.len() as int) =~= Seq::<Pattern>::empty());
        assert(name_set(out@).union(Set::<Seq<char>>::empty()) =~= name_set(out@));
    }
}

} // verus!

verus! {

// ---------- the index ----------

/// Names an item declares: a definition's or a type's, not a test's.
pub open spec fn item_decl(i: Item) -> Set<Seq<char>> {
    match i {
        Item::Def(d) => set![d.name@],
        Item::TypeDef(t) => set![t.name@],
        Item::Test(_) => Set::empty(),
    }
}

/// Every name declared by a definition or a type.
pub open spec fn declared(items: Seq<Item>) -> Set<Seq<char>>
    decreases items.len(),
{
    if items.len() == 0 {
        Set::empty()
    } else {
        declared(items.drop_last()).union(item_decl(items.last()))
    }
}

/// (constructor, owning type) pairs of one variant declaration.
pub open spec fn variant_entries(vs: Seq<VariantDef>, owner: Seq<char>) -> Seq<(Seq<char>, Seq<char>)>
    decreases vs.len(),
{
    if vs.len() == 0 {
        seq![]
    } else {
        variant_entries(vs.drop_last(), owner).push((vs.last().name@, owner))
    }
}

pub open spec fn item_ctor_entries(i: Item) -> Seq<(Seq<char>, Seq<char>)> {
    match i {
        Item::TypeDef(t) => match t.decl {
            TypeDecl::Variants(vs) => variant_entries(vs@, t.name@),
            _ => seq![],
        },
        _ => seq![],
    }
}

/// Constructor-to-type pairs in declaration order; for a constructor name
/// declared twice the later pair counts.
pub open spec fn ctor_entries(items: Seq<Item>) -> Seq<(Seq<char>, Seq<char>)>
    decreases items.len(),
{
    if items.len() == 0 {
        seq![]
    } else {
        ctor_entries(items.drop_last()) + item_ctor_entries(items.last())
    }
}

/// Names that have an owner in a list of pairs.
pub open spec fn owned_names(es: Seq<(Seq<char>, Seq<char>)>) -> Set<Seq<char>> {
    Set::new(|c: Seq<char>| owner_in(es, c) is Some)
}

/// Declared names together with constructor names.
pub open spec fn known_plus(items: Seq<Item>) -> Set<Seq<char>> {
    declared(items).union(owned_names(ctor_entries(items)))
}

/// A constructor name stands for its owning type; other names for themselves.
pub open spec fn rewrite_ref(es: Seq<(Seq<char>, Seq<char>)>, n: Seq<char>) -> Seq<char> {
    match owner_in(es, n) {
        Some(o) => o,
        None => n,
    }
}

/// A set of names with constructors replaced by their types.
pub open spec fn rewritten(s: Set<Seq<char>>, es: Seq<(Seq<char>, Seq<char>)>) -> Set<Seq<char>> {
    Set::new(|a: Seq<char>| exists|x: Seq<char>| s.contains(x) && rewrite_ref(es, x) == a)
}

pub open spec fn params_refs(ps: Seq<Param>, known: Set<Seq<char>>, kp: Set<Seq<char>>) -> Set<Seq<char>>
    decreases ps.len(),
{
    if ps.len() == 0 {
        Set::empty()
    } else {
        params_refs(ps.drop_last(), known, kp).union(type_refs(ps.last().ty, known)).union(
            match ps.last().contract {
                Some(c) => expr_refs(c, kp),
                None => Set::empty(),
            },
        )
    }
}

/// Names a definition mentions in its parameters, its type and its body.
pub open spec fn def_raw_refs(d: Def, known: Set<Seq<char>>, kp: Set<Seq<char>>) -> Set<Seq<char>> {
    (match d.params {
        Some(ps) => params_refs(ps@, known, kp),
        None => Set::empty(),
    }).union(type_refs(d.ty, known)).union(expr_refs(d.body, kp))
}

/// What a definition depends on: the names it mentions, constructors
/// replaced by their types, itself left out.
pub open spec fn def_deps(d: Def, items: Seq<Item>) -> Set<Seq<char>> {
    rewritten(def_raw_refs(d, declared(items), known_plus(items)), ctor_entries(items)).remove(d.name@)
}

/// The last definition named `k`.
pub open spec fn last_def(items: Seq<Item>, k: Seq<char>) -> Option<Def>
    decreases items.len(),
{
    if items.len() == 0 {
        None
    } else {
        match items.last() {
            Item::Def(d) => if d.name@ == k {
                Some(d)
            } else {
                last_def(items.drop_last(), k)
            },
            _ => last_def(items.drop_last(), k),
        }
    }
}

/// Names of definitions.
pub open spec fn def_names(items: Seq<Item>) -> Set<Seq<char>> {
    Set::new(|k: Seq<char>| last_def(items, k) is Some)
}

/// The dependencies recorded for a definition name; a later definition of a
/// name replaces an earlier one.
pub open spec fn deps_of(items: Seq<Item>, k: Seq<char>) -> Set<Seq<char>> {
    match last_def(items, k) {
        Some(d) => def_deps(d, items),
        None => Set::empty(),
    }
}

/// Who references whom in a program.
pub struct Index {
    /// definition name -> the names it references, keys increasing
    pub deps: Vec<(String, Vec<String>)>,
    /// constructor name -> owning type, in declaration order (the last pair for a name counts)
    pub ctor_owner: Vec<(String, String)>,
    /// names of definitions and types, increasing
    pub known: Vec<String>,
}

impl Index {
    pub open spec fn dep_keys(&self) -> Seq<Seq<char>> {
        self.deps@.map_values(|e: (String, Vec<String>)| e.0@)
    }

    /// This is the index of a program with these items.
    pub open spec fn indexes(&self, items: Seq<Item>) -> bool {
        &&& sorted_names(self.known@)
        &&& name_set(self.known@) == declared(items)
        &&& pairs_view(self.ctor_owner@) == ctor_entries(items)
        &&& strictly_sorted(self.dep_keys())
        &&& self.dep_keys().to_set() == def_names(items)
        &&& forall|i: int|
            0 <= i < self.deps@.len() ==> sorted_names(#[trigger] self.deps@[i].1@) && name_set(self.deps@[i].1@)
                == deps_of(items, self.deps@[i].0@)
    }
}

fn collect_known(items: &Vec<Item>) -> (r: Vec<String>)
    ensures
        sorted_names(r@),
        name_set(r@) == declared(items@),
{
    let mut known: Vec<String> = Vec::new();
    let mut i: usize = 0;
    assert(items@.take(0) =~= Seq::<Item>::empty());
    assert(name_set(known@) =~= Set::<Seq<char>>::empty());
    while i < items.len()
        invariant
            i <= items@.len(),
            sorted_names(known@),
            name_set(known@) == declared(items@.take(i as int)),
        decreases items.len() - i,
    {
        proof {
            assert(items@.take(i + 1).drop_last() =~= items@.take(i as int));
            assert(items@.take(i + 1).last() == items@[i as int]);
        }
        match &items[i] {
            Item::Def(d) => set_insert(&mut known, copy_string(&d.name)),
            Item::TypeDef(t) => set_insert(&mut known, copy_string(&t.name)),
            Item::Test(_) => {},
        }
        proof {
            assert(name_set(known@) =~= declared(items@.take(i + 1)));
        }
        i += 1;
    }
    assert(items@.take(items@.len() as int) =~= items@);
    known
}

#[verifier::loop_isolation(false)]
fn collect_owners(items: &Vec<Item>) -> (r: Vec<(String, String)>)
    ensures
        pairs_view(r@) == ctor_entries(items@),
{
    let mut owners: Vec<(String, String)> = Vec::new();
    let mut i: usize = 0;
    assert(items@.take(0) =~= Seq::<Item>::empty());
    assert(pairs_view(owners@) =~= Seq::<(Seq<char>, Seq<char>)>::empty());
    while i < items.len()
        invariant
            i <= items@.len(),
            pairs_view(owners@) == ctor_entries(items@.take(i as int)),
        decreases items.len() - i,
    {
        proof {
            assert(items@.take(i + 1).drop_last() =~= items@.take(i as int));
            assert(items@.take(i + 1).last() == items@[i as int]);
        }
        let ghost base = pairs_view(owners@);
        match &items[i] {
            Item::TypeDef(t) => match &t.decl {
                TypeDecl::Variants(vs) => {
                    let mut j: usize = 0;
                    assert(vs@.take(0) =~= Seq::<VariantDef>::empty());
                    assert(base + variant_entries(vs@.take(0), t.name@) =~= base);
                    while j < vs.len()
                        invariant
                            j <= vs@.len(),
                            pairs_view(owners@) == base + variant_entries(vs@.take(j as int), t.name@),
                        decreases vs.len() - j,
                    {
                        let ghost before = owners@;
                        owners.push((copy_string(&vs[j].name), copy_string(&t.name)));
                        proof {
                            assert(vs@.take(j + 1).drop_last() =~= vs@.take(j as int));
                            assert(vs@.take(j + 1).last() == vs@[j as int]);
                            assert(pairs_view(owners@) =~= pairs_view(before).push((vs@[j as int].name@, t.name@)));
                            assert(pairs_view(owners@) =~= base + variant_entries(vs@.take(j + 1), t.name@));
                        }
                        j += 1;
                    }
                    assert(vs@.take(vs@.len() as int) =~= vs@);
                },
                _ => {
                    assert(pairs_view(owners@) =~= base + seq![]);
                },
            },
            _ => {
                assert(pairs_view(owners@) =~= base + seq![]);
            },
        }
        proof {
            assert(pairs_view(owners@) =~= ctor_entries(items@.take(i + 1)));
        }
        i += 1;
    }
    assert(items@.take(items@.len() as int) =~= items@);
    owners
}

/// A name has an owner exactly when some pair names it.
pub proof fn lemma_owner_in_some(es: Seq<(Seq<char>, Seq<char>)>, c: Seq<char>)
    ensures
        (owner_in(es, c) is Some) <==> (exists|k: int| 0 <= k < es.len() && (#[trigger] es[k]).0 == c),
    decreases es.len(),
{
    if es.len() > 0 {
        lemma_owner_in_some(es.drop_last(), c);
        if owner_in(es.drop_last(), c) is Some {
            let k = choose|k: int| 0 <= k < es.drop_last().len() && (#[trigger] es.drop_last()[k]).0 == c;
            assert(es[k] == es.drop_last()[k]);
        }
        if exists|k: int| 0 <= k < es.len() && (#[trigger] es[k]).0 == c {
            let k = choose|k: int| 0 <= k < es.len() && (#[trigger] es[k]).0 == c;
            if k < es.len() - 1 {
                assert(es.drop_last()[k] == es[k]);
            }
        }
    }
}

fn with_ctors(known: &Vec<String>, owners: &Vec<(String, String)>) -> (r: Vec<String>)
    ensures
        sorted_names(r@),
        name_set(r@) == name_set(known@).union(owned_names(pairs_view(owners@))),
{
    let ghost pv = pairs_view(owners@);
    let mut kp: Vec<String> = Vec::new();
    let mut i: usize = 0;
    assert(name_set(kp@) =~= Set::<Seq<char>>::empty());
    while i < known.len()
        invariant
            i <= known@.len(),
            sorted_names(kp@),
            name_set(kp@) == name_set(known@.take(i as int)),
        decreases known.len() - i,
    {
        set_insert(&mut kp, copy_string(&known[i]));
        proof {
            assert forall|t: Seq<char>| name_set(known@.take(i + 1)).contains(t) <==> name_set(known@.take(i as int)).insert(known@[i as int]@).contains(t) by {
                if name_set(known@.take(i + 1)).contains(t) {
                    let k = choose|k: int| 0 <= k < known@.take(i + 1).len() && (#[trigger] known@.take(i + 1)[k])@ == t;
                    if k < i {
                        assert(known@.take(i as int)[k] == known@.take(i + 1)[k]);
                    }
                }
                if name_set(known@.take(i as int)).contains(t) {
                    let k = choose|k: int| 0 <= k < known@.take(i as int).len() && (#[trigger] known@.take(i as int)[k])@ == t;
                    assert(known@.take(i + 1)[k] == known@.take(i as int)[k]);
                }
                if t == known@[i as int]@ {
                    assert(known@.take(i + 1)[i as int] == known@[i as int]);
                }
            }
            assert(name_set(known@.take(i + 1)) =~= name_set(known@.take(i as int)).insert(known@[i as int]@));
        }
        i += 1;
    }
    assert(known@.take(known@.len() as int) =~= known@);
    let mut j: usize = 0;
    while j < owners.len()
        invariant
            j <= owners@.len(),
            pv == pairs_view(owners@),
            sorted_names(kp@),
            name_set(kp@) == name_set(known@).union(
                Set::new(|c: Seq<char>| exists|k: int| 0 <= k < j && (#[trigger] pv[k]).0 == c),
            ),
        decreases owners.len() - j,
    {
        set_insert(&mut kp, copy_string(&owners[j].0));
        proof {
            assert(pv[j as int].0 == owners@[j as int].0@);
            assert(name_set(kp@) =~= name_set(known@).union(
                Set::new(|c: Seq<char>| exists|k: int| 0 <= k < j + 1 && (#[trigger] pv[k]).0 == c),
            ));
        }
        j += 1;
    }
    proof {
        assert forall|c: Seq<char>| owned_names(pv).contains(c) <==> (exists|k: int| 0 <= k < owners@.len() && (#[trigger] pv[k]).0 == c) by {
            lemma_owner_in_some(pv, c);
        }
        assert(name_set(kp@) =~= name_set(known@).union(owned_names(pv)));
    }
    kp
}

fn collect_def_names(items: &Vec<Item>) -> (r: Vec<String>)
    ensures
        sorted_names(r@),
        name_set(r@) == def_names(items@),
{
    let mut names: Vec<String> = Vec::new();
    let mut i: usize = 0;
    assert(items@.take(0) =~= Seq::<Item>::empty());
    assert(name_set(names@) =~= def_names(items@.take(0)));
    while i < items.len()
        invariant
            i <= items@.len(),
            sorted_names(names@),
            name_set(names@) == def_names(items@.take(i as int)),
        decreases items.len() - i,
    {
        let ghost pre = items@.take(i as int);
        let ghost next = items@.take(i + 1);
        proof {
            assert(next.drop_last() =~= pre);
            assert(next.last() == items@[i as int]);
        }
        match &items[i] {
            Item::Def(d) => {
                set_insert(&mut names, copy_string(&d.name));
                proof {
                    assert forall|k: Seq<char>| def_names(next).contains(k) <==> def_names(pre).insert(d.name@).contains(k) by {
                        assert(last_def(next, k) == (if d.name@ == k { Some(*d) } else { last_def(pre, k) }));
                    }
                    assert(name_set(names@) =~= def_names(next));
                }
            },
            _ => {
                proof {
                    assert forall|k: Seq<char>| def_names(next).contains(k) <==> def_names(pre).contains(k) by {
                        assert(last_def(next, k) == last_def(pre, k));
                    }
                    assert(name_set(names@) =~= def_names(next));
                }
            },
        }
        i += 1;
    }
    assert(items@.take(items@.len() as int) =~= items@);
    names
}

/// Position of the last definition named `k`.
fn find_last_def(items: &Vec<Item>, k: &str) -> (r: Option<usize>)
    ensures
        match r {
            Some(j) => j < items@.len() && (items@[j as int] matches Item::Def(d) && last_def(items@, k@) == Some(d)),
            None => last_def(items@, k@) is None,
        },
{
    let mut j: usize = items.len();
    assert(items@.take(items@.len() as int) =~= items@);
    while j > 0
        invariant
            j <= items@.len(),
            last_def(items@, k@) == last_def(items@.take(j as int), k@),
        decreases j,
    {
        proof {
            assert(items@.take(j as int).drop_last() =~= items@.take(j - 1));
            assert(items@.take(j as int).last() == items@[j - 1]);
        }
        match &items[j - 1] {
            Item::Def(d) => {
                if str_eq(d.name.as_str(), k) {
                    return Some(j - 1);
                }
            },
            _ => {},
        }
        j -= 1;
    }
    None
}

/// The set of names a prefix of `raw` rewrites to.
pub open spec fn rewritten_prefix(raw: Seq<String>, es: Seq<(Seq<char>, Seq<char>)>, i: int) -> Set<Seq<char>> {
    Set::new(|a: Seq<char>| exists|x: int| 0 <= x < i && rewrite_ref(es, (#[trigger] raw[x])@) == a)
}

/// Replaces constructor names by their owning types.
fn rewrite_names(raw: &Vec<String>, owners: &Vec<(String, String)>) -> (r: Vec<String>)
    ensures
        sorted_names(r@),
        name_set(r@) == rewritten(name_set(raw@), pairs_view(owners@)),
{
    let ghost pv = pairs_view(owners@);
    let mut r: Vec<String> = Vec::new();
    let mut i: usize = 0;
    assert(name_set(r@) =~= rewritten_prefix(raw@, pv, 0));
    while i < raw.len()
        invariant
            i <= raw@.len(),
            pv == pairs_view(owners@),
            sorted_names(r@),
            name_set(r@) == rewritten_prefix(raw@, pv, i as int),
        decreases raw.len() - i,
    {
        let n = match owner_lookup(owners, raw[i].as_str()) {
            Some(o) => o,
            None => copy_string(&raw[i]),
        };
        assert(n@ == rewrite_ref(pv, raw@[i as int]@));
        set_insert(&mut r, n);
        proof {
            assert forall|a: Seq<char>| rewritten_prefix(raw@, pv, i + 1).contains(a) <==> rewritten_prefix(raw@, pv, i as int).insert(n@).contains(a) by {
                if rewritten_prefix(raw@, pv, i + 1).contains(a) {
                    let x = choose|x: int| 0 <= x < i + 1 && rewrite_ref(pv, (#[trigger] raw@[x])@) == a;
                    if x < i {
                        assert(rewritten_prefix(raw@, pv, i as int).contains(a));
                    }
                }
                if rewritten_prefix(raw@, pv, i as int).contains(a) {
                    let x = choose|x: int| 0 <= x < i && rewrite_ref(pv, (#[trigger] raw@[x])@) == a;
                    assert(0 <= x < i + 1);
                }
                if a == n@ {
                    assert(rewrite_ref(pv, raw@[i as int]@) == a);
                }
            }
            assert(name_set(r@) =~= rewritten_prefix(raw@, pv, i + 1));
        }
        i += 1;
    }
    proof {
        assert forall|a: Seq<char>| rewritten_prefix(raw@, pv, raw@.len() as int).contains(a) <==> rewritten(name_set(raw@), pv).contains(a) by {
            if rewritten_prefix(raw@, pv, raw@.len() as int).contains(a) {
                let x = choose|x: int| 0 <= x < raw@.len() && rewrite_ref(pv, (#[trigger] raw@[x])@) == a;
                assert(name_set(raw@).contains(raw@[x]@));
            }
            if rewritten(name_set(raw@), pv).contains(a) {
                let y = choose|y: Seq<char>| name_set(raw@).contains(y) && rewrite_ref(pv, y) == a;
                let x = choose|x: int| 0 <= x < raw@.len() && (#[trigger] raw@[x])@ == y;
                assert(rewrite_ref(pv, raw@[x]@) == a);
            }
        }
        assert(name_set(r@) =~= rewritten(name_set(raw@), pv));
    }
    r
}

/// The names a definition depends on.
fn def_deps_of(d: &Def, known: &Vec<String>, kp: &Vec<String>, owners: &Vec<(String, String)>) -> (r: Vec<String>)
    ensures
        sorted_names(r@),
        name_set(r@) == rewritten(def_raw_refs(*d, name_set(known@), name_set(kp@)), pairs_view(owners@)).remove(
            d.name@,
        ),
{
    let ghost k = name_set(known@);
    let ghost kps = name_set(kp@);
    let mut out: Vec<String> = Vec::new();
    assert(name_set(out@) =~= Set::<Seq<char>>::empty());
    match &d.params {
        Some(ps) => {
            let mut i: usize = 0;
            assert(ps@.take(0) =~= Seq::<Param>::empty());
            while i < ps.len()
                invariant
                    i <= ps@.len(),
                    k == name_set(known@),
                    kps == name_set(kp@),
                    sorted_names(out@),
                    name_set(out@) == params_refs(ps@.take(i as int), k, kps),
                decreases ps.len() - i,
            {
                let ghost before = name_set(out@);
                refs_of_type(&ps[i].ty, known, &mut out);
                match &ps[i].contract {
                    Some(c) => refs_of_expr(c, kp, &mut out),
                    None => {},
                }
                proof {
                    assert(ps@.take(i + 1).drop_last() =~= ps@.take(i as int));
                    assert(ps@.take(i + 1).last() == ps@[i as int]);
                    assert(name_set(out@) =~= params_refs(ps@.take(i + 1), k, kps));
                }
                i += 1;
            }
            assert(ps@.take(ps@.len() as int) =~= ps@);
        },
        None => {},
    }
    refs_of_type(&d.ty, known, &mut out);
    refs_of_expr(&d.body, kp, &mut out);
    assert(name_set(out@) =~= def_raw_refs(*d, k, kps));
    let mut r = rewrite_names(&out, owners);
    set_remove(&mut r, d.name.as_str());
    r
}

/// Index a program: declared names, constructor owners, and for each
/// definition the names it references.
#[verifier::loop_isolation(false)]
pub fn build_index(prog: &Program) -> (r: Index)
    ensures
        r.indexes(prog.items@),
{
    let items = &prog.items;
    let known = collect_known(items);
    let owners = collect_owners(items);
    let kp = with_ctors(&known, &owners);
    let names = collect_def_names(items);
    proof {
        lemma_names_sorted_of(names@);
    }
    let mut deps: Vec<(String, Vec<String>)> = Vec::new();
    let mut j: usize = 0;
    while j < names.len()
        invariant
            j <= names@.len(),
            deps@.len() == j,
            forall|i: int|
                0 <= i < j ==> (#[trigger] deps@[i]).0@ == names@[i]@ && sorted_names(deps@[i].1@) && name_set(
                    deps@[i].1@,
                ) == deps_of(items@, deps@[i].0@),
        decreases names.len() - j,
    {
        let k = &names[j];
        assert(name_set(names@).contains(k@));
        match find_last_def(items, k.as_str()) {
            Some(p) => match &items[p] {
                Item::Def(d) => {
                    let ds = def_deps_of(d, &known, &kp, &owners);
                    deps.push((copy_string(k), ds));
                },
                _ => {},
            },
            None => {},
        }
        j += 1;
    }
    let r = Index { deps, ctor_owner: owners, known };
    proof {
        assert(r.dep_keys() =~= names_view(names@));
        lemma_names_sorted_of(names@);
    }
    r
}

} // verus!

verus! {

// ---------- what the index promises ----------

proof fn lemma_type_refs_known(te: TypeExpr, k: Set<Seq<char>>)
    ensures
        type_refs(te, k).subset_of(k),
    decreases te, 1nat,
{
    match te {
        TypeExpr::Name(n, args, _) => lemma_types_refs_known(args@, k),
        TypeExpr::Record(fields, _) => lemma_fields_refs_known(fields@, k),
        TypeExpr::Fn(args, ret, _) => {
            lemma_types_refs_known(args@, k);
            lemma_type_refs_known(*ret, k);
        },
    }
}

proof fn lemma_types_refs_known(ts: Seq<TypeExpr>, k: Set<Seq<char>>)
    ensures
        types_refs(ts, k).subset_of(k),
    decreases ts, 0nat,
{
    if ts.len() > 0 {
        lemma_type_refs_known(ts[0], k);
        lemma_types_refs_known(ts.subrange(1, ts.len() as int), k);
    }
}

proof fn lemma_fields_refs_known(fs: Seq<(String, TypeExpr)>, k: Set<Seq<char>>)
    ensures
        fields_refs(fs, k).subset_of(k),
    decreases fs, 0nat,
{
    if fs.len() > 0 {
        lemma_type_refs_known(fs[0].1, k);
        lemma_fields_refs_known(fs.subrange(1, fs.len() as int), k);
    }
}

proof fn lemma_expr_refs_known(e: Expr, k: Set<Seq<char>>)
    ensures
        expr_refs(e, k).subset_of(k),
    decreases e, 1nat,
{
    match e.kind {
        ExprKind::Ctor(_, args) => lemma_exprs_refs_known(args@, k),
        ExprKind::NamedRec { spread, fields, .. } => {
            match spread {
                Some(b) => lemma_expr_refs_known(*b, k),
                None => {},
            }
            lemma_field_exprs_refs_known(fields@, k);
        },
        ExprKind::Record { spread, fields } => {
            match spread {
                Some(b) => lemma_expr_refs_known(*b, k),
                None => {},
            }
            lemma_field_exprs_refs_known(fields@, k);
        },
        ExprKind::List(es) => lemma_exprs_refs_known(es@, k),
        ExprKind::Field(b, _) => lemma_expr_refs_known(*b, k),
        ExprKind::Call(c, args) => {
            lemma_expr_refs_known(*c, k);
            lemma_exprs_refs_known(args@, k);
        },
        ExprKind::Lambda { body, .. } => lemma_expr_refs_known(*body, k),
        ExprKind::Block { lets, tail } => {
            lemma_field_exprs_refs_known(lets@, k);
            lemma_expr_refs_known(*tail, k);
        },
        ExprKind::If { cond, then, els } => {
            lemma_expr_refs_known(*cond, k);
            lemma_expr_refs_known(*then, k);
            lemma_expr_refs_known(*els, k);
        },
        ExprKind::Match { scrutinee, arms } => {
            lemma_expr_refs_known(*scrutinee, k);
            lemma_arms_refs_known(arms@, k);
        },
        ExprKind::Bin(_, l, r) => {
            lemma_expr_refs_known(*l, k);
            lemma_expr_refs_known(*r, k);
        },
        ExprKind::NotOp(i) => lemma_expr_refs_known(*i, k),
        ExprKind::NegOp(i) => lemma_expr_refs_known(*i, k),
        ExprKind::Propagate(i) => lemma_expr_refs_known(*i, k),
        _ => {},
    }
}

proof fn lemma_exprs_refs_known(es: Seq<Expr>, k: Set<Seq<char>>)
    ensures
        exprs_refs(es, k).subset_of(k),
    decreases es, 0nat,
{
    if es.len() > 0 {
        lemma_expr_refs_known(es[0], k);
        lemma_exprs_refs_known(es.subrange(1, es.len() as int), k);
    }
}

proof fn lemma_field_exprs_refs_known(fs: Seq<(String, Expr)>, k: Set<Seq<char>>)
    ensures
        field_exprs_refs(fs, k).subset_of(k),
    decreases fs, 0nat,
{
    if fs.len() > 0 {
        lemma_expr_refs_known(fs[0].1, k);
        lemma_field_exprs_refs_known(fs.subrange(1, fs.len() as int), k);
    }
}

proof fn lemma_arms_refs_known(arms: Seq<(Pattern, Expr)>, k: Set<Seq<char>>)
    ensures
        arms_refs(arms, k).subset_of(k),
    decreases arms, 0nat,
{
    if arms.len() > 0 {
        lemma_pattern_refs_known(arms[0].0, k);
        lemma_expr_refs_known(arms[0].1, k);
        lemma_arms_refs_known(arms.subrange(1, arms.len() as int), k);
    }
}

proof fn lemma_pattern_refs_known(p: Pattern, k: Set<Seq<char>>)
    ensures
        pattern_refs(p, k).subset_of(k),
    decreases p, 1nat,
{
    match p.kind {
        PatKind::Ctor(_, subs) => lemma_patterns_refs_known(subs@, k),
        PatKind::List { heads, .. } => lemma_patterns_refs_known(heads@, k),
        _ => {},
    }
}

proof fn lemma_patterns_refs_known(ps: Seq<Pattern>, k: Set<Seq<char>>)
    ensures
        patterns_refs(ps, k).subset_of(k),
    decreases ps, 0nat,
{
    if ps.len() > 0 {
        lemma_pattern_refs_known(ps[0], k);
        lemma_patterns_refs_known(ps.subrange(1, ps.len() as int), k);
    }
}

proof fn lemma_params_refs_known(ps: Seq<Param>, k: Set<Seq<char>>, kp: Set<Seq<char>>)
    ensures
        params_refs(ps, k, kp).subset_of(k.union(kp)),
    decreases ps.len(),
{
    if ps.len() > 0 {
        lemma_params_refs_known(ps.drop_last(), k, kp);
        lemma_type_refs_known(ps.last().ty, k);
        match ps.last().contract {
            Some(c) => lemma_expr_refs_known(c, kp),
            None => {},
        }
    }
}

proof fn lemma_owner_in_pair(es: Seq<(Seq<char>, Seq<char>)>, c: Seq<char>)
    ensures
        owner_in(es, c) is Some ==> exists|k: int| 0 <= k < es.len() && (#[trigger] es[k]).1 == owner_in(es, c)->0,
    decreases es.len(),
{
    if es.len() > 0 && es.last().0 != c {
        lemma_owner_in_pair(es.drop_last(), c);
        if owner_in(es.drop_last(), c) is Some {
            let k = choose|k: int| 0 <= k < es.drop_last().len() && (#[trigger] es.drop_last()[k]).1 == owner_in(es.drop_last(), c)->0;
            assert(es[k] == es.drop_last()[k]);
        }
    } else if es.len() > 0 {
        assert(es[es.len() - 1] == es.last());
    }
}

proof fn lemma_variant_entries_owner(vs: Seq<VariantDef>, o: Seq<char>)
    ensures
        forall|k: int| 0 <= k < variant_entries(vs, o).len() ==> (#[trigger] variant_entries(vs, o)[k]).1 == o,
    decreases vs.len(),
{
    if vs.len() > 0 {
        lemma_variant_entries_owner(vs.drop_last(), o);
        let a = variant_entries(vs.drop_last(), o);
        assert forall|k: int| 0 <= k < variant_entries(vs, o).len() implies (#[trigger] variant_entries(vs, o)[k]).1 == o by {
            if k < a.len() {
                assert(variant_entries(vs, o)[k] == a[k]);
            }
        }
    }
}

/// Every constructor's owner is a declared type.
proof fn lemma_ctor_owners_declared(items: Seq<Item>)
    ensures
        forall|k: int| 0 <= k < ctor_entries(items).len() ==> declared(items).contains(#[trigger] ctor_entries(items)[k].1),
    decreases items.len(),
{
    if items.len() > 0 {
        lemma_ctor_owners_declared(items.drop_last());
        let a = ctor_entries(items.drop_last());
        let b = item_ctor_entries(items.last());
        match items.last() {
            Item::TypeDef(t) => match t.decl {
                TypeDecl::Variants(vs) => lemma_variant_entries_owner(vs@, t.name@),
                _ => {},
            },
            _ => {},
        }
        assert forall|k: int| 0 <= k < ctor_entries(items).len() implies declared(items).contains(#[trigger] ctor_entries(items)[k].1) by {
            if k < a.len() {
                assert(ctor_entries(items)[k] == a[k]);
            } else {
                assert(ctor_entries(items)[k] == b[k - a.len()]);
            }
        }
    }
}

proof fn lemma_last_def_name(items: Seq<Item>, k: Seq<char>)
    ensures
        last_def(items, k) is Some ==> last_def(items, k)->0.name@ == k,
    decreases items.len(),
{
    if items.len() > 0 {
        lemma_last_def_name(items.drop_last(), k);
    }
}

/// No definition depends on itself, and every dependency is a declared
/// definition or type (constructors stand for their types).
pub proof fn lemma_deps_declared(items: Seq<Item>, k: Seq<char>)
    ensures
        !deps_of(items, k).contains(k),
        deps_of(items, k).subset_of(declared(items)),
{
    lemma_last_def_name(items, k);
    match last_def(items, k) {
        Some(d) => {
            let kn = declared(items);
            let kp = known_plus(items);
            let es = ctor_entries(items);
            match d.params {
                Some(ps) => lemma_params_refs_known(ps@, kn, kp),
                None => {},
            }
            lemma_type_refs_known(d.ty, kn);
            lemma_expr_refs_known(d.body, kp);
            let raw = def_raw_refs(d, kn, kp);
            assert(raw.subset_of(kp));
            lemma_ctor_owners_declared(items);
            assert forall|a: Seq<char>| deps_of(items, k).contains(a) implies kn.contains(a) by {
                let x = choose|x: Seq<char>| raw.contains(x) && rewrite_ref(es, x) == a;
                lemma_owner_in_pair(es, x);
                if owner_in(es, x) is Some {
                    let j = choose|j: int| 0 <= j < es.len() && (#[trigger] es[j]).1 == owner_in(es, x)->0;
                    assert(kn.contains(es[j].1));
                } else {
                    assert(!owned_names(es).contains(x));
                }
            }
        },
        None => {},
    }
}

// ---------- the dependency graph ----------

/// One line of the dependency graph.
pub open spec fn graph_line(k: Seq<char>, ds: Seq<Seq<char>>) -> Seq<char> {
    if ds.len() == 0 {
        k + " ->\n"@
    } else {
        k + " -> "@ + join_spec(ds, ", "@) + "\n"@
    }
}

pub open spec fn graph_lines(ks: Seq<Seq<char>>, items: Seq<Item>) -> Seq<char>
    decreases ks.len(),
{
    if ks.len() == 0 {
        seq![]
    } else {
        graph_lines(ks.drop_last(), items) + graph_line(ks.last(), sorted_of(deps_of(items, ks.last())))
    }
}

/// The dependency graph: each definition in name order with the names it
/// references in name order.
pub open spec fn graph_spec(items: Seq<Item>) -> Seq<char> {
    "# dependency graph (name -> references)\n\n"@ + graph_lines(sorted_of(def_names(items)), items)
}

pub fn graph(prog: &Program) -> (r: String)
    ensures
        r@ == graph_spec(prog.items@),
{
    let idx = build_index(prog);
    let ghost items = prog.items@;
    let ghost keys = idx.dep_keys();
    let mut out = owned("# dependency graph (name -> references)\n\n");
    let mut i: usize = 0;
    assert(keys.take(0) =~= Seq::<Seq<char>>::empty());
    proof {
        lemma_sorted_of_is(keys, def_names(items));
    }
    while i < idx.deps.len()
        invariant
            i <= idx.deps@.len(),
            idx.indexes(items),
            keys == idx.dep_keys(),
            out@ == "# dependency graph (name -> references)\n\n"@ + graph_lines(keys.take(i as int), items),
        decreases idx.deps.len() - i,
    {
        let name = &idx.deps[i].0;
        let ds = &idx.deps[i].1;
        let ghost before = out@;
        push_str(&mut out, name.as_str());
        if ds.len() == 0 {
            push_str(&mut out, " ->\n");
        } else {
            push_str(&mut out, " -> ");
            let j = join_strings(ds, ", ");
            push_str(&mut out, j.as_str());
            push_str(&mut out, "\n");
        }
        proof {
            lemma_names_sorted_of(ds@);
            assert(names_texts(ds@) =~= names_view(ds@));
            assert(keys[i as int] == name@);
            assert(keys.take(i + 1).drop_last() =~= keys.take(i as int));
            assert(keys.take(i + 1).last() == name@);
            assert(out@ =~= before + graph_line(name@, sorted_of(deps_of(items, name@))));
        }
        i += 1;
    }
    assert(keys.take(idx.deps@.len() as int) =~= keys);
    out
}

} // verus!

verus! {

// ---------- the skeleton ----------

/// `s` padded with spaces on the right to at least `w` characters.
pub open spec fn pad_to(s: Seq<char>, w: nat) -> Seq<char>
    decreases w - s.len(),
{
    if s.len() >= w {
        s
    } else {
        pad_to(s.push(' '), w)
    }
}

/// Appends `s` left-aligned in a field of `w` characters.
fn push_padded(out: &mut String, s: &str, w: usize)
    ensures
        final(out)@ == old(out)@ + pad_to(s@, w as nat),
{
    push_str(out, s);
    let mut k: usize = chars_of(s).len();
    let ghost mut cur = s@;
    while k < w
        invariant
            out@ == old(out)@ + cur,
            cur.len() == k,
            pad_to(s@, w as nat) == pad_to(cur, w as nat),
        decreases w - k,
    {
        push_char(out, ' ');
        proof {
            cur = cur.push(' ');
        }
        k += 1;
    }
}

/// The 1-based line of a byte offset.
pub open spec fn line_at(src: Seq<char>, off: nat) -> nat {
    line_col_spec(src, off).0
}

/// `L<line>` padded to four digits and a space.
pub open spec fn line_tag(src: Seq<char>, off: nat) -> Seq<char> {
    seq!['L'] + pad_to(nat_text(line_at(src, off)), 4) + seq![' ']
}

/// One skeleton entry.
pub open spec fn skeleton_item(src: Seq<char>, i: Item) -> Seq<char> {
    match i {
        Item::TypeDef(td) => line_tag(src, td.span.start as nat) + typedef_text_spec(td) + seq!['\n'],
        Item::Def(d) => line_tag(src, d.span.start as nat) + def_signature_spec(d) + match doc_line_spec(
            src,
            d.span.start as nat,
        ) {
            Some(s) => "   # "@ + s,
            None => seq![],
        } + seq!['\n'],
        Item::Test(t) => line_tag(src, t.span.start as nat) + (if t.params.len() == 0 {
            "test"@
        } else {
            "property test"@
        }) + " \""@ + t.name@ + "\"\n"@,
    }
}

pub open spec fn skeleton_items(src: Seq<char>, items: Seq<Item>) -> Seq<char>
    decreases items.len(),
{
    if items.len() == 0 {
        seq![]
    } else {
        skeleton_items(src, items.drop_last()) + skeleton_item(src, items.last())
    }
}

/// The program map: counts, then one line per item with its line number,
/// its signature and, for a definition, the first line of its doc comment.
pub open spec fn skeleton_spec(items: Seq<Item>, src: Seq<char>) -> Seq<char> {
    "# skeleton: "@ + nat_text(lines_of(src).len()) + " lines, "@ + nat_text(count_defs(items)) + " defs, "@
        + nat_text(count_tests(items)) + " tests\n\n"@ + skeleton_items(src, items)
}

fn push_line_tag(out: &mut String, src: &str, off: usize)
    requires
        src@.len() < usize::MAX,
    ensures
        final(out)@ == old(out)@ + line_tag(src@, off as nat),
{
    let (line, _) = line_col(src, off);
    push_char(out, 'L');
    let t = usize_text(line);
    push_padded(out, t.as_str(), 4);
    push_char(out, ' ');
    assert(out@ =~= old(out)@ + line_tag(src@, off as nat));
}

fn push_skeleton_item(out: &mut String, src: &str, item: &Item)
    requires
        src@.len() < usize::MAX,
    ensures
        final(out)@ == old(out)@ + skeleton_item(src@, *item),
{
    match item {
        Item::TypeDef(td) => {
            push_line_tag(out, src, td.span.start);
            let t = typedef_text(td);
            push_str(out, t.as_str());
            push_char(out, '\n');
        },
        Item::Def(d) => {
            push_line_tag(out, src, d.span.start);
            let t = def_signature(d);
            push_str(out, t.as_str());
            match doc_line(src, d.span.start) {
                Some(s) => {
                    push_str(out, "   # ");
                    push_str(out, s.as_str());
                },
                None => {},
            }
            push_char(out, '\n');
        },
        Item::Test(t) => {
            push_line_tag(out, src, t.span.start);
            if t.params.len() == 0 {
                push_str(out, "test");
            } else {
                push_str(out, "property test");
            }
            push_str(out, " \"");
            push_str(out, t.name.as_str());
            push_str(out, "\"\n");
        },
    }
    assert(out@ =~= old(out)@ + skeleton_item(src@, *item));
}

/// Signatures and docs of every item: the map of a program.
pub fn skeleton(prog: &Program, src: &str) -> (r: String)
    requires
        src@.len() < usize::MAX,
    ensures
        r@ == skeleton_spec(prog.items@, src@),
{
    let items = &prog.items;
    let cs = chars_of(src);
    let lines = lines_vec(cs.as_slice());
    let mut defs: usize = 0;
    let mut tests: usize = 0;
    let mut i: usize = 0;
    assert(items@.take(0) =~= Seq::<Item>::empty());
    while i < items.len()
        invariant
            i <= items@.len(),
            defs <= i,
            tests <= i,
            defs == count_defs(items@.take(i as int)),
            tests == count_tests(items@.take(i as int)),
        decreases items.len() - i,
    {
        proof {
            assert(items@.take(i + 1).drop_last() =~= items@.take(i as int));
            assert(items@.take(i + 1).last() == items@[i as int]);
        }
        match &items[i] {
            Item::Def(_) => defs += 1,
            Item::Test(_) => tests += 1,
            _ => {},
        }
        i += 1;
    }
    assert(items@.take(items@.len() as int) =~= items@);
    let mut out = owned("# skeleton: ");
    push_str(&mut out, usize_text(lines.len()).as_str());
    push_str(&mut out, " lines, ");
    push_str(&mut out, usize_text(defs).as_str());
    push_str(&mut out, " defs, ");
    push_str(&mut out, usize_text(tests).as_str());
    push_str(&mut out, " tests\n\n");
    let ghost head = out@;
    let mut j: usize = 0;
    assert(skeleton_items(src@, items@.take(0)) =~= Seq::<char>::empty());
    while j < items.len()
        invariant
            j <= items@.len(),
            src@.len() < usize::MAX,
            out@ == head + skeleton_items(src@, items@.take(j as int)),
        decreases items.len() - j,
    {
        push_skeleton_item(&mut out, src, &items[j]);
        proof {
            assert(items@.take(j + 1).drop_last() =~= items@.take(j as int));
            assert(items@.take(j + 1).last() == items@[j as int]);
        }
        j += 1;
    }
    proof {
        assert(lines@.map_values(|l: Vec<char>| l@).len() == lines@.len());
    }
    out
}

} // verus!

verus! {

// ---------- context slices ----------

/// `n` capped at the largest `usize`.
pub open spec fn sat(n: int) -> nat {
    if n > usize::MAX {
        usize::MAX as nat
    } else if n < 0 {
        0
    } else {
        n as nat
    }
}

/// The names asked for.
pub open spec fn target_set(targets: Seq<String>) -> Set<Seq<char>> {
    Set::new(|n: Seq<char>| exists|k: int| 0 <= k < targets.len() && (#[trigger] targets[k])@ == n)
}

/// The targets and what they depend on directly.
pub open spec fn slice_set(items: Seq<Item>, ts: Set<Seq<char>>) -> Set<Seq<char>> {
    ts.union(Set::new(|d: Seq<char>| exists|t: Seq<char>| ts.contains(t) && deps_of(items, t).contains(d)))
}

/// Definitions outside the slice that depend on a target.
pub open spec fn caller_set(items: Seq<Item>, ts: Set<Seq<char>>) -> Set<Seq<char>> {
    Set::new(
        |n: Seq<char>|
            def_names(items).contains(n) && (exists|t: Seq<char>| ts.contains(t) && deps_of(items, n).contains(t))
                && !slice_set(items, ts).contains(n),
    )
}

/// Sources of the definitions and types whose names are in `sl`, in order.
pub open spec fn slice_sources(items: Seq<Item>, src: Seq<char>, sl: Set<Seq<char>>) -> Seq<Seq<char>>
    decreases items.len(),
{
    if items.len() == 0 {
        seq![]
    } else {
        let rest = slice_sources(items.drop_last(), src, sl);
        match items.last() {
            Item::Def(d) => if sl.contains(d.name@) {
                rest.push(item_source_spec(src, d.span))
            } else {
                rest
            },
            Item::TypeDef(t) => if sl.contains(t.name@) {
                rest.push(item_source_spec(src, t.span))
            } else {
                rest
            },
            Item::Test(_) => rest,
        }
    }
}

/// Names a test body references, constructors standing for their types.
pub open spec fn test_refs(t: Test, all: Seq<Item>) -> Set<Seq<char>> {
    rewritten(expr_refs(t.body, known_plus(all)), ctor_entries(all))
}

/// Sources of the tests among `items` that reference a watched name.
pub open spec fn test_sources(items: Seq<Item>, src: Seq<char>, watch: Set<Seq<char>>, all: Seq<Item>) -> Seq<Seq<char>>
    decreases items.len(),
{
    if items.len() == 0 {
        seq![]
    } else {
        let rest = test_sources(items.drop_last(), src, watch, all);
        match items.last() {
            Item::Test(t) => if exists|w: Seq<char>| watch.contains(w) && test_refs(t, all).contains(w) {
                rest.push(item_source_spec(src, t.span))
            } else {
                rest
            },
            _ => rest,
        }
    }
}

/// Each text followed by a blank line.
pub open spec fn blocks(ss: Seq<Seq<char>>) -> Seq<char>
    decreases ss.len(),
{
    if ss.len() == 0 {
        seq![]
    } else {
        blocks(ss.drop_last()) + ss.last() + "\n\n"@
    }
}

/// Lines of the texts, each counted with one line more for its separator.
pub open spec fn lines_total(ss: Seq<Seq<char>>) -> nat
    decreases ss.len(),
{
    if ss.len() == 0 {
        0
    } else {
        lines_total(ss.drop_last()) + lines_of(ss.last()).len() + 1
    }
}

/// Signature lines of the definitions named in `callers`, in order.
pub open spec fn caller_sigs(items: Seq<Item>, callers: Set<Seq<char>>) -> Seq<char>
    decreases items.len(),
{
    if items.len() == 0 {
        seq![]
    } else {
        caller_sigs(items.drop_last(), callers) + match items.last() {
            Item::Def(d) => if callers.contains(d.name@) {
                def_signature_spec(d) + "\n"@
            } else {
                seq![]
            },
            _ => seq![],
        }
    }
}

/// The slice before its statistics.
pub open spec fn ctx_body(items: Seq<Item>, src: Seq<char>, targets: Seq<String>) -> Seq<char> {
    let ts = target_set(targets);
    let callers = caller_set(items, ts);
    let tests = test_sources(items, src, ts.union(callers), items);
    "# Context slice for: "@ + join_spec(names_texts(targets), ", "@) + "\n"@
        + "# Everything needed to modify these definitions. Signatures below are\n# complete and honest [W2]; trust them without reading further.\n\n"@
        + "## Program map (all signatures)\n\n"@ + skeleton_spec(items, src)
        + "\n## Full definitions (targets + direct dependencies)\n\n```weft\n"@ + blocks(
        slice_sources(items, src, slice_set(items, ts)),
    ) + "```\n"@ + (if callers == Set::<Seq<char>>::empty() {
        seq![]
    } else {
        "\n## Callers of the targets (signatures only \u{2014} do not break these)\n\n"@ + caller_sigs(items, callers)
    }) + (if tests.len() == 0 {
        seq![]
    } else {
        "\n## Existing tests touching the targets or their callers (must keep passing)\n\n```weft\n"@ + blocks(tests)
            + "```\n"@
    })
}

/// The context slice for editing `targets`: the program map, full sources of
/// the targets and their direct dependencies, callers' signatures, the tests
/// that touch a target or a caller, and statistics.
pub open spec fn ctx_spec(items: Seq<Item>, src: Seq<char>, targets: Seq<String>) -> Seq<char> {
    let ts = target_set(targets);
    let callers = caller_set(items, ts);
    let tests = test_sources(items, src, ts.union(callers), items);
    let body = ctx_body(items, src, targets);
    let total: nat = if lines_of(src).len() >= 1 { lines_of(src).len() } else { 1 };
    let emitted = sat((lines_total(slice_sources(items, src, slice_set(items, ts))) + lines_total(tests)) as int);
    let cl = lines_of(body).len();
    body + "\n## Stats\nfull program: "@ + nat_text(total) + " lines \u{b7} full bodies emitted: "@ + nat_text(emitted)
        + " lines \u{b7} whole context: "@ + nat_text(cl) + " lines ("@ + nat_text(sat((cl * 100) as int) / total)
        + "% of a full-file read)\n"@
}

/// Number of lines of a text (`str::lines().count()`).
pub fn count_lines(s: &str) -> (n: usize)
    ensures
        n == lines_of(s@).len(),
{
    let cs = chars_of(s);
    let ls = lines_vec(cs.as_slice());
    assert(ls@.map_values(|l: Vec<char>| l@).len() == ls@.len());
    ls.len()
}

/// Position of the dependency entry for `t`.
fn find_dep(idx: &Index, t: &str) -> (r: Option<usize>)
    ensures
        match r {
            Some(p) => p < idx.deps@.len() && idx.deps@[p as int].0@ == t@,
            None => !idx.dep_keys().contains(t@),
        },
{
    let mut i: usize = 0;
    while i < idx.deps.len()
        invariant
            i <= idx.deps@.len(),
            forall|k: int| 0 <= k < i ==> (#[trigger] idx.deps@[k]).0@ != t@,
        decreases idx.deps.len() - i,
    {
        if str_eq(idx.deps[i].0.as_str(), t) {
            return Some(i);
        }
        i += 1;
    }
    proof {
        if idx.dep_keys().contains(t@) {
            let k = choose|k: int| 0 <= k < idx.dep_keys().len() && idx.dep_keys()[k] == t@;
            assert(idx.deps@[k].0@ == idx.dep_keys()[k]);
        }
    }
    None
}

/// The targets plus their direct dependencies.
#[verifier::loop_isolation(false)]
fn ctx_slice(idx: &Index, items: Ghost<Seq<Item>>, ts: &Vec<String>) -> (r: Vec<String>)
    requires
        idx.indexes(items@),
        sorted_names(ts@),
    ensures
        sorted_names(r@),
        name_set(r@) == slice_set(items@, name_set(ts@)),
{
    let ghost tset = name_set(ts@);
    let mut sl: Vec<String> = Vec::new();
    let mut j: usize = 0;
    while j < ts.len()
        invariant
            j <= ts@.len(),
            sorted_names(sl@),
            name_set(sl@) == name_set(ts@.take(j as int)),
        decreases ts.len() - j,
    {
        set_insert(&mut sl, copy_string(&ts[j]));
        proof {
            assert forall|n: Seq<char>| name_set(ts@.take(j + 1)).contains(n) <==> name_set(ts@.take(j as int)).insert(ts@[j as int]@).contains(n) by {
                if name_set(ts@.take(j + 1)).contains(n) {
                    let k = choose|k: int| 0 <= k < j + 1 && (#[trigger] ts@.take(j + 1)[k])@ == n;
                    if k < j {
                        assert(ts@.take(j as int)[k] == ts@.take(j + 1)[k]);
                    }
                }
                if name_set(ts@.take(j as int)).contains(n) {
                    let k = choose|k: int| 0 <= k < j && (#[trigger] ts@.take(j as int)[k])@ == n;
                    assert(ts@.take(j + 1)[k] == ts@.take(j as int)[k]);
                }
                if n == ts@[j as int]@ {
                    assert(ts@.take(j + 1)[j as int] == ts@[j as int]);
                }
            }
            assert(name_set(ts@.take(j + 1)) =~= name_set(ts@.take(j as int)).insert(ts@[j as int]@));
        }
        j += 1;
    }
    assert(ts@.take(ts@.len() as int) =~= ts@);
    let mut j: usize = 0;
    while j < ts.len()
        invariant
            j <= ts@.len(),
            sorted_names(sl@),
            name_set(sl@) == tset.union(
                Set::new(|d: Seq<char>| exists|jj: int| 0 <= jj < j && deps_of(items@, (#[trigger] ts@[jj])@).contains(d)),
            ),
        decreases ts.len() - j,
    {
        let ghost before = name_set(sl@);
        match find_dep(idx, ts[j].as_str()) {
            Some(p) => {
                let ds = &idx.deps[p].1;
                let mut m: usize = 0;
                while m < ds.len()
                    invariant
                        m <= ds@.len(),
                        sorted_names(sl@),
                        name_set(sl@) == before.union(name_set(ds@.take(m as int))),
                    decreases ds.len() - m,
                {
                    set_insert(&mut sl, copy_string(&ds[m]));
                    proof {
                        assert forall|n: Seq<char>| name_set(ds@.take(m + 1)).contains(n) <==> name_set(ds@.take(m as int)).insert(ds@[m as int]@).contains(n) by {
                            if name_set(ds@.take(m + 1)).contains(n) {
                                let k = choose|k: int| 0 <= k < m + 1 && (#[trigger] ds@.take(m + 1)[k])@ == n;
                                if k < m {
                                    assert(ds@.take(m as int)[k] == ds@.take(m + 1)[k]);
                                }
                            }
                            if name_set(ds@.take(m as int)).contains(n) {
                                let k = choose|k: int| 0 <= k < m && (#[trigger] ds@.take(m as int)[k])@ == n;
                                assert(ds@.take(m + 1)[k] == ds@.take(m as int)[k]);
                            }
                            if n == ds@[m as int]@ {
                                assert(ds@.take(m + 1)[m as int] == ds@[m as int]);
                            }
                        }
                        assert(name_set(sl@) =~= before.union(name_set(ds@.take(m + 1))));
                    }
                    m += 1;
                }
                proof {
                    assert(ds@.take(ds@.len() as int) =~= ds@);
                    assert(sorted_names(idx.deps@[p as int].1@));
                    assert(name_set(ds@) == deps_of(items@, ts@[j as int]@));
                }
            },
            None => {
                proof {
                    assert(!def_names(items@).contains(ts@[j as int]@));
                    assert(deps_of(items@, ts@[j as int]@) =~= Set::<Seq<char>>::empty());
                }
            },
        }
        proof {
            assert(name_set(sl@) =~= tset.union(
                Set::new(|d: Seq<char>| exists|jj: int| 0 <= jj < j + 1 && deps_of(items@, (#[trigger] ts@[jj])@).contains(d)),
            ));
        }
        j += 1;
    }
    proof {
        assert forall|d: Seq<char>| #[trigger] name_set(sl@).contains(d) <==> slice_set(items@, tset).contains(d) by {
            if exists|t: Seq<char>| tset.contains(t) && deps_of(items@, t).contains(d) {
                let t = choose|t: Seq<char>| tset.contains(t) && deps_of(items@, t).contains(d);
                let jj = choose|jj: int| 0 <= jj < ts@.len() && (#[trigger] ts@[jj])@ == t;
                assert(deps_of(items@, ts@[jj]@).contains(d));
            }
            if exists|jj: int| 0 <= jj < ts@.len() && deps_of(items@, (#[trigger] ts@[jj])@).contains(d) {
                let jj = choose|jj: int| 0 <= jj < ts@.len() && deps_of(items@, (#[trigger] ts@[jj])@).contains(d);
                assert(tset.contains(ts@[jj]@));
            }
        }
        assert(name_set(sl@) =~= slice_set(items@, tset));
    }
    sl
}


/// Definitions outside the slice that depend on a target.
#[verifier::loop_isolation(false)]
fn ctx_callers(idx: &Index, items: Ghost<Seq<Item>>, ts: &Vec<String>, sl: &Vec<String>) -> (r: Vec<String>)
    requires
        idx.indexes(items@),
        name_set(sl@) == slice_set(items@, name_set(ts@)),
    ensures
        sorted_names(r@),
        name_set(r@) == caller_set(items@, name_set(ts@)),
{
    let ghost tset = name_set(ts@);
    let ghost keys = idx.dep_keys();
    let mut callers: Vec<String> = Vec::new();
    let mut i: usize = 0;
    while i < idx.deps.len()
        invariant
            i <= idx.deps@.len(),
            sorted_names(callers@),
            name_set(callers@) == Set::new(
                |n: Seq<char>|
                    exists|k: int|
                        0 <= k < i && (#[trigger] idx.deps@[k]).0@ == n && (exists|t: Seq<char>|
                            tset.contains(t) && name_set(idx.deps@[k].1@).contains(t)) && !name_set(sl@).contains(n),
            ),
        decreases idx.deps.len() - i,
    {
        let ghost before = name_set(callers@);
        let name = &idx.deps[i].0;
        let hit = any_shared(&idx.deps[i].1, ts);
        if hit && !set_contains(sl, name.as_str()) {
            set_insert(&mut callers, copy_string(name));
        }
        proof {
            assert(name_set(callers@) =~= Set::new(
                |n: Seq<char>|
                    exists|k: int|
                        0 <= k < i + 1 && (#[trigger] idx.deps@[k]).0@ == n && (exists|t: Seq<char>|
                            tset.contains(t) && name_set(idx.deps@[k].1@).contains(t)) && !name_set(sl@).contains(n),
            ));
        }
        i += 1;
    }
    proof {
        assert forall|n: Seq<char>| #[trigger] name_set(callers@).contains(n) <==> caller_set(items@, tset).contains(n) by {
            if name_set(callers@).contains(n) {
                let k = choose|k: int|
                    0 <= k < idx.deps@.len() && (#[trigger] idx.deps@[k]).0@ == n && (exists|t: Seq<char>|
                        tset.contains(t) && name_set(idx.deps@[k].1@).contains(t)) && !name_set(sl@).contains(n);
                assert(keys[k] == n);
                assert(keys.to_set().contains(n));
            }
            if caller_set(items@, tset).contains(n) {
                assert(keys.to_set().contains(n));
                assert(keys.contains(n));
                let k = choose|k: int| 0 <= k < keys.len() && keys[k] == n;
                assert(idx.deps@[k].0@ == n);
                assert(name_set(idx.deps@[k].1@) == deps_of(items@, n));
            }
        }
        assert(name_set(callers@) =~= caller_set(items@, tset));
    }
    callers
}

/// Sources of the tests that reference a watched name.
#[verifier::loop_isolation(false)]
fn ctx_tests(prog: &Program, src: &str, idx: &Index, watch: &Vec<String>) -> (r: Vec<String>)
    requires
        idx.indexes(prog.items@),
        src@.len() < usize::MAX,
    ensures
        names_view(r@) == test_sources(prog.items@, src@, name_set(watch@), prog.items@),
{
    let items = &prog.items;
    let ghost all = prog.items@;
    let ghost w = name_set(watch@);
    let kp = with_ctors(&idx.known, &idx.ctor_owner);
    let mut out: Vec<String> = Vec::new();
    let mut i: usize = 0;
    assert(names_view(out@) =~= test_sources(all.take(0), src@, w, all));
    while i < items.len()
        invariant
            i <= items@.len(),
            names_view(out@) == test_sources(all.take(i as int), src@, w, all),
        decreases items.len() - i,
    {
        proof {
            assert(all.take(i + 1).drop_last() =~= all.take(i as int));
            assert(all.take(i + 1).last() == all[i as int]);
        }
        match &items[i] {
            Item::Test(t) => {
                let mut refs: Vec<String> = Vec::new();
                assert(name_set(refs@) =~= Set::<Seq<char>>::empty());
                refs_of_expr(&t.body, &kp, &mut refs);
                assert(name_set(refs@) =~= expr_refs(t.body, known_plus(all)));
                let rw = rewrite_names(&refs, &idx.ctor_owner);
                if any_shared(watch, &rw) {
                    let ghost before = out@;
                    out.push(item_source(src, t.span));
                    assert(names_view(out@) =~= names_view(before).push(item_source_spec(src@, t.span)));
                }
            },
            _ => {},
        }
        i += 1;
    }
    assert(all.take(all.len() as int) =~= all);
    out
}

/// Appends each text followed by a blank line; returns the running line
/// count grown by each text's lines plus one, capped at the largest `usize`.
fn push_blocks(out: &mut String, ss: &Vec<String>, acc: usize) -> (r: usize)
    ensures
        final(out)@ == old(out)@ + blocks(names_view(ss@)),
        r == sat(acc + lines_total(names_view(ss@))),
{
    let ghost q = names_view(ss@);
    let mut n: usize = acc;
    let mut i: usize = 0;
    assert(q.take(0) =~= Seq::<Seq<char>>::empty());
    while i < ss.len()
        invariant
            i <= ss@.len(),
            q == names_view(ss@),
            out@ == old(out)@ + blocks(q.take(i as int)),
            n == sat(acc + lines_total(q.take(i as int))),
        decreases ss.len() - i,
    {
        push_str(out, ss[i].as_str());
        push_str(out, "\n\n");
        let c = count_lines(ss[i].as_str());
        n = n.saturating_add(c).saturating_add(1);
        proof {
            assert(q.take(i + 1).drop_last() =~= q.take(i as int));
            assert(q.take(i + 1).last() == ss@[i as int]@);
        }
        i += 1;
    }
    assert(q.take(q.len() as int) =~= q);
    n
}

/// Appends the sources of the items named in `sl`, each followed by a blank
/// line; returns the running line count as `push_blocks` does.
#[verifier::loop_isolation(false)]
fn push_slice_sources(out: &mut String, prog: &Program, src: &str, sl: &Vec<String>, acc: usize) -> (r: usize)
    requires
        src@.len() < usize::MAX,
    ensures
        final(out)@ == old(out)@ + blocks(slice_sources(prog.items@, src@, name_set(sl@))),
        r == sat(acc + lines_total(slice_sources(prog.items@, src@, name_set(sl@)))),
{
    let items = &prog.items;
    let ghost all = prog.items@;
    let ghost set = name_set(sl@);
    let mut n: usize = acc;
    let mut i: usize = 0;
    assert(all.take(0) =~= Seq::<Item>::empty());
    while i < items.len()
        invariant
            i <= items@.len(),
            out@ == old(out)@ + blocks(slice_sources(all.take(i as int), src@, set)),
            n == sat(acc + lines_total(slice_sources(all.take(i as int), src@, set))),
        decreases items.len() - i,
    {
        proof {
            assert(all.take(i + 1).drop_last() =~= all.take(i as int));
            assert(all.take(i + 1).last() == all[i as int]);
        }
        let span_opt: Option<Span> = match &items[i] {
            Item::Def(d) => if set_contains(sl, d.name.as_str()) {
                Some(d.span)
            } else {
                None
            },
            Item::TypeDef(t) => if set_contains(sl, t.name.as_str()) {
                Some(t.span)
            } else {
                None
            },
            Item::Test(_) => None,
        };
        let ghost prev = slice_sources(all.take(i as int), src@, set);
        let ghost next = slice_sources(all.take(i + 1), src@, set);
        match span_opt {
            Some(sp) => {
                let s = item_source(src, sp);
                push_str(out, s.as_str());
                push_str(out, "\n\n");
                let c = count_lines(s.as_str());
                n = n.saturating_add(c).saturating_add(1);
                proof {
                    assert(next == prev.push(s@));
                    assert(next.drop_last() =~= prev);
                }
            },
            None => {
                assert(next == prev);
            },
        }
        i += 1;
    }
    assert(all.take(all.len() as int) =~= all);
    n
}

/// Appends the signatures of the definitions named in `callers`.
fn push_caller_sigs(out: &mut String, items: &Vec<Item>, callers: &Vec<String>)
    ensures
        final(out)@ == old(out)@ + caller_sigs(items@, name_set(callers@)),
{
    let ghost set = name_set(callers@);
    let mut i: usize = 0;
    assert(items@.take(0) =~= Seq::<Item>::empty());
    while i < items.len()
        invariant
            i <= items@.len(),
            set == name_set(callers@),
            out@ == old(out)@ + caller_sigs(items@.take(i as int), set),
        decreases items.len() - i,
    {
        proof {
            assert(items@.take(i + 1).drop_last() =~= items@.take(i as int));
            assert(items@.take(i + 1).last() == items@[i as int]);
        }
        let ghost before = out@;
        match &items[i] {
            Item::Def(d) => if set_contains(callers, d.name.as_str()) {
                let sig = def_signature(d);
                push_str(out, sig.as_str());
                push_str(out, "\n");
            },
            _ => {},
        }
        assert(out@ =~= old(out)@ + caller_sigs(items@.take(i + 1), set));
        i += 1;
    }
    assert(items@.take(items@.len() as int) =~= items@);
}

/// Assemble a context slice for modifying `targets`: the map of everything,
/// full sources of the targets and their direct dependencies, the callers'
/// signatures, and the tests that touch a target or a caller. Every target
/// must be a declared definition or type.
pub fn ctx(prog: &Program, src: &str, targets: &[String]) -> (r: Result<String, String>)
    requires
        src@.len() < usize::MAX,
    ensures
        match r {
            Ok(s) => (forall|k: int| 0 <= k < targets@.len() ==> declared(prog.items@).contains(#[trigger] targets@[k]@))
                && s@ == ctx_spec(prog.items@, src@, targets@),
            Err(e) => exists|k: int|
                0 <= k < targets@.len() && !declared(prog.items@).contains(#[trigger] targets@[k]@) && (forall|j: int|
                    0 <= j < k ==> declared(prog.items@).contains(#[trigger] targets@[j]@)) && e@ == "unknown definition `"@
                    + targets@[k]@ + "`"@,
        },
{
    let ghost items = prog.items@;
    let idx = build_index(prog);
    let mut k: usize = 0;
    while k < targets.len()
        invariant
            k <= targets@.len(),
            idx.indexes(items),
            items == prog.items@,
            forall|j: int| 0 <= j < k ==> declared(items).contains(#[trigger] targets@[j]@),
        decreases targets.len() - k,
    {
        if !set_contains(&idx.known, targets[k].as_str()) {
            let mut e = owned("unknown definition `");
            push_str(&mut e, targets[k].as_str());
            push_str(&mut e, "`");
            return Err(e);
        }
        k += 1;
    }
    let mut tv: Vec<String> = Vec::new();
    let mut k: usize = 0;
    while k < targets.len()
        invariant
            k <= targets@.len(),
            tv@.len() == k,
            forall|j: int| 0 <= j < k ==> (#[trigger] tv@[j])@ == targets@[j]@,
        decreases targets.len() - k,
    {
        tv.push(copy_string(&targets[k]));
        k += 1;
    }
    proof {
        assert(names_texts(tv@) =~= names_texts(targets@));
        assert forall|n: Seq<char>| #[trigger] name_set(tv@).contains(n) <==> target_set(targets@).contains(n) by {
            if name_set(tv@).contains(n) {
                let k = choose|k: int| 0 <= k < tv@.len() && (#[trigger] tv@[k])@ == n;
                assert(targets@[k]@ == n);
            }
            if target_set(targets@).contains(n) {
                let k = choose|k: int| 0 <= k < targets@.len() && (#[trigger] targets@[k])@ == n;
                assert(tv@[k]@ == n);
            }
        }
        assert(name_set(tv@) =~= target_set(targets@));
    }
    let ts = set_of(&tv);
    let ghost tset = target_set(targets@);
    let sl = ctx_slice(&idx, Ghost(items), &ts);
    let callers = ctx_callers(&idx, Ghost(items), &ts, &sl);
    let mut watch = set_of(&ts);
    set_add_all(&mut watch, &callers);
    let tests = ctx_tests(prog, src, &idx, &watch);
    let mut out = owned("# Context slice for: ");
    let joined = join_strings(&tv, ", ");
    push_str(&mut out, joined.as_str());
    push_str(&mut out, "\n");
    push_str(
        &mut out,
        "# Everything needed to modify these definitions. Signatures below are\n# complete and honest [W2]; trust them without reading further.\n\n",
    );
    push_str(&mut out, "## Program map (all signatures)\n\n");
    let sk = skeleton(prog, src);
    push_str(&mut out, sk.as_str());
    push_str(&mut out, "\n## Full definitions (targets + direct dependencies)\n\n```weft\n");
    let emitted = push_slice_sources(&mut out, prog, src, &sl, 0);
    push_str(&mut out, "```\n");
    proof {
        lemma_name_set_empty(callers@);
    }
    if callers.len() > 0 {
        push_str(&mut out, "\n## Callers of the targets (signatures only \u{2014} do not break these)\n\n");
        push_caller_sigs(&mut out, &prog.items, &callers);
    }
    let mut emitted2 = emitted;
    if tests.len() > 0 {
        push_str(&mut out, "\n## Existing tests touching the targets or their callers (must keep passing)\n\n```weft\n");
        emitted2 = push_blocks(&mut out, &tests, emitted);
        push_str(&mut out, "```\n");
    }
    proof {
        assert(out@ =~= ctx_body(items, src@, targets@));
    }
    let src_lines = count_lines(src);
    let total: usize = if src_lines >= 1 { src_lines } else { 1 };
    let cl = count_lines(out.as_str());
    let scaled: usize = match cl.checked_mul(100) {
        Some(v) => v,
        None => usize::MAX,
    };
    let pct = scaled / total;
    push_str(&mut out, "\n## Stats\nfull program: ");
    push_str(&mut out, usize_text(total).as_str());
    push_str(&mut out, " lines \u{b7} full bodies emitted: ");
    push_str(&mut out, usize_text(emitted2).as_str());
    push_str(&mut out, " lines \u{b7} whole context: ");
    push_str(&mut out, usize_text(cl).as_str());
    push_str(&mut out, " lines (");
    push_str(&mut out, usize_text(pct).as_str());
    push_str(&mut out, "% of a full-file read)\n");
    Ok(out)
}

} // verus!
