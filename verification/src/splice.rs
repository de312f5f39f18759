//! Definition-granularity merge. A patch is a Weft file of whole
//! definitions; splicing replaces base items with the same name and appends
//! the rest. Two patches touching the same name is a conflict, detected by
//! name, not by file position, so edits to different definitions never clash.
use vstd::prelude::*;
use crate::ast::{Item, Program};
use crate::check::{item_span, item_span_spec};
use crate::diag::Span;
use crate::index::{def_signature, def_signature_spec, ext_up, extend_up, join_lines, join_spec, join_strings, line_at, lines_view, min_nat, names_texts};
use crate::lines::{closed_text, lemma_lines_of_closed, line_col, lines_of, lines_vec, plain_lines};
use crate::names::{lemma_names_sorted_of, name_set, names_view, owner_in, owner_lookup, pairs_view, set_insert, sort_strings, sorted_names, sorted_of, sorted_seq};
use crate::text::{cat, chars_of, copy_string, nat_text, owned, push_char, push_str, str_eq, usize_text};

verus! {

/// A top-level item located in its source, with any comment block above it.
pub struct Located {
    pub key: String,
    pub start_line: usize,
    pub end_line: usize,
    /// signature of a def, for detecting type-changing replacements
    pub sig: Option<String>,
}

/// `def name`, `type name` or `test name`.
pub open spec fn key_spec(item: Item) -> Seq<char> {
    match item {
        Item::Def(d) => "def "@ + d.name@,
        Item::TypeDef(t) => "type "@ + t.name@,
        Item::Test(t) => "test "@ + t.name@,
    }
}

fn key_of(item: &Item) -> (r: String)
    ensures
        r@ == key_spec(*item),
{
    match item {
        Item::Def(d) => cat("def ", d.name.as_str()),
        Item::TypeDef(td) => cat("type ", td.name.as_str()),
        Item::Test(t) => cat("test ", t.name.as_str()),
    }
}

fn span_of(item: &Item) -> (r: Span)
    ensures
        r == item_span_spec(*item),
{
    item_span(item)
}

/// First line (1-based) of an item, extended up over its comment block.
pub open spec fn loc_start(src: Seq<char>, it: Item) -> nat {
    ext_up(lines_of(src), line_at(src, item_span_spec(it).start as nat))
}

/// Last line (1-based) of an item, at most the number of lines.
pub open spec fn loc_end(src: Seq<char>, it: Item) -> nat {
    min_nat(line_at(src, item_span_spec(it).end as nat), lines_of(src).len())
}

pub open spec fn sig_spec(it: Item) -> Option<Seq<char>> {
    match it {
        Item::Def(d) => Some(def_signature_spec(d)),
        _ => None,
    }
}

pub open spec fn opt_view(o: Option<String>) -> Option<Seq<char>> {
    match o {
        Some(s) => Some(s@),
        None => None,
    }
}

/// `l` is where `it` stands in `src`.
pub open spec fn locates(l: Located, src: Seq<char>, it: Item) -> bool {
    &&& l.key@ == key_spec(it)
    &&& l.start_line == loc_start(src, it)
    &&& l.end_line == loc_end(src, it)
    &&& opt_view(l.sig) == sig_spec(it)
}

/// Locate every top-level item, extending each upward over its comments.
pub fn locate(prog: &Program, src: &str) -> (r: Vec<Located>)
    requires
        src@.len() < usize::MAX,
    ensures
        r@.len() == prog.items@.len(),
        forall|i: int| 0 <= i < r@.len() ==> locates(#[trigger] r@[i], src@, prog.items@[i]),
{
    let cs = chars_of(src);
    let lines = lines_vec(cs.as_slice());
    proof {
        assert(lines_view(lines@) == lines_of(src@));
    }
    let mut out: Vec<Located> = Vec::new();
    let mut i: usize = 0;
    while i < prog.items.len()
        invariant
            i <= prog.items@.len(),
            src@.len() < usize::MAX,
            lines_view(lines@) == lines_of(src@),
            out@.len() == i,
            forall|k: int| 0 <= k < i ==> locates(#[trigger] out@[k], src@, prog.items@[k]),
        decreases prog.items.len() - i,
    {
        let item = &prog.items[i];
        let span = span_of(item);
        let (start, _) = line_col(src, span.start);
        let (end, _) = line_col(src, span.end);
        let first = extend_up(&lines, start);
        let sig = match item {
            Item::Def(d) => Some(def_signature(d)),
            _ => None,
        };
        let end_line = if end <= lines.len() { end } else { lines.len() };
        proof {
            assert(lines_view(lines@).len() == lines@.len());
        }
        out.push(Located { key: key_of(item), start_line: first, end_line, sig });
        i += 1;
    }
    out
}

/// Lines `start..=end` (1-based) of a text joined by newlines.
pub open spec fn lines_text(src: Seq<char>, start: nat, end: nat) -> Seq<char> {
    join_spec(lines_of(src).subrange(start - 1, end as int), "\n"@)
}

/// The source text of a located item.
pub fn item_text(src: &str, loc: &Located) -> (r: String)
    requires
        1 <= loc.start_line,
        loc.start_line - 1 <= loc.end_line <= lines_of(src@).len(),
    ensures
        r@ == lines_text(src@, loc.start_line as nat, loc.end_line as nat),
{
    let cs = chars_of(src);
    let lines = lines_vec(cs.as_slice());
    proof {
        assert(lines_view(lines@) == lines_of(src@));
        assert(lines_view(lines@).len() == lines@.len());
    }
    join_lines(&lines, loc.start_line - 1, loc.end_line)
}


/// A file of definitions to merge, under a label (its file stem).
pub struct Patch {
    pub label: String,
    pub src: String,
    pub prog: Program,
}

/// The merged text and what changed.
pub struct Merge {
    pub text: String,
    pub replaced: Vec<String>,
    pub added: Vec<String>,
    /// replacements that changed a definition's signature: callers may break
    pub signature_changes: Vec<String>,
}

/// A patch item as the merge sees it.
pub struct EntryView {
    pub label: Seq<char>,
    pub key: Seq<char>,
    pub text: Seq<char>,
    pub sig: Option<Seq<char>>,
}

pub open spec fn item_entry(label: Seq<char>, src: Seq<char>, it: Item) -> EntryView {
    EntryView {
        label,
        key: key_spec(it),
        text: lines_text(src, loc_start(src, it), loc_end(src, it)),
        sig: sig_spec(it),
    }
}

pub open spec fn items_entries(label: Seq<char>, src: Seq<char>, items: Seq<Item>) -> Seq<EntryView>
    decreases items.len(),
{
    if items.len() == 0 {
        seq![]
    } else {
        items_entries(label, src, items.drop_last()).push(item_entry(label, src, items.last()))
    }
}

/// Every item of every patch, in order.
pub open spec fn entries(ps: Seq<Patch>) -> Seq<EntryView>
    decreases ps.len(),
{
    if ps.len() == 0 {
        seq![]
    } else {
        entries(ps.drop_last()) + items_entries(ps.last().label@, ps.last().src@, ps.last().prog.items@)
    }
}

/// Label of the first entry with key `k`.
pub open spec fn first_label(es: Seq<EntryView>, k: Seq<char>) -> Option<Seq<char>>
    decreases es.len(),
{
    if es.len() == 0 {
        None
    } else {
        match first_label(es.drop_last(), k) {
            Some(l) => Some(l),
            None => if es.last().key == k {
                Some(es.last().label)
            } else {
                None
            },
        }
    }
}

pub open spec fn conflict_msg(k: Seq<char>, first: Seq<char>, label: Seq<char>) -> Seq<char> {
    "  "@ + k + " \u{2014} touched by "@ + first + " and "@ + label
}

/// The conflict that entry `i` raises: its key was touched first under
/// another label.
pub open spec fn conflict_at(es: Seq<EntryView>, i: int) -> Option<Seq<char>> {
    match first_label(es.take(i), es[i].key) {
        Some(f) => if f != es[i].label {
            Some(conflict_msg(es[i].key, f, es[i].label))
        } else {
            None
        },
        None => None,
    }
}

/// All conflicts among the entries.
pub open spec fn conflict_set(es: Seq<EntryView>) -> Set<Seq<char>> {
    Set::new(|m: Seq<char>| exists|i: int| 0 <= i < es.len() && conflict_at(es, i) == Some(m))
}

proof fn lemma_conflicts_push(es: Seq<EntryView>, e: EntryView)
    ensures
        conflict_set(es.push(e)) == conflict_set(es).union(
            match conflict_at(es.push(e), es.len() as int) {
                Some(m) => set![m],
                None => Set::empty(),
            },
        ),
        conflict_at(es.push(e), es.len() as int) == match first_label(es, e.key) {
            Some(f) => if f != e.label {
                Some(conflict_msg(e.key, f, e.label))
            } else {
                None
            },
            None => None,
        },
{
    let es2 = es.push(e);
    assert(es2.take(es.len() as int) =~= es);
    assert forall|i: int| 0 <= i < es.len() implies conflict_at(es2, i) == conflict_at(es, i) by {
        assert(es2.take(i) =~= es.take(i));
        assert(es2[i] == es[i]);
    }
    let extra = match conflict_at(es2, es.len() as int) {
        Some(m) => set![m],
        None => Set::<Seq<char>>::empty(),
    };
    assert forall|m: Seq<char>| conflict_set(es2).contains(m) <==> conflict_set(es).union(extra).contains(m) by {
        if conflict_set(es2).contains(m) {
            let i = choose|i: int| 0 <= i < es2.len() && conflict_at(es2, i) == Some(m);
            if i < es.len() {
                assert(conflict_at(es, i) == Some(m));
            }
        }
        if conflict_set(es).contains(m) {
            let i = choose|i: int| 0 <= i < es.len() && conflict_at(es, i) == Some(m);
            assert(conflict_at(es2, i) == Some(m));
        }
    }
    assert(conflict_set(es2) =~= conflict_set(es).union(extra));
}

proof fn lemma_first_label_push(es: Seq<EntryView>, e: EntryView, k: Seq<char>)
    ensures
        first_label(es.push(e), k) == match first_label(es, k) {
            Some(l) => Some(l),
            None => if e.key == k {
                Some(e.label)
            } else {
                None
            },
        },
{
    assert(es.push(e).drop_last() =~= es);
}

/// The conflicts among the patches, sorted and without repeats: a name
/// touched by two patches with different labels.
#[verifier::loop_isolation(false)]
pub fn splice_conflicts(patches: &[Patch]) -> (r: Vec<String>)
    requires
        forall|i: int| 0 <= i < patches@.len() ==> (#[trigger] patches@[i]).src@.len() < usize::MAX,
    ensures
        sorted_names(r@),
        name_set(r@) == conflict_set(entries(patches@)),
{
    let mut owner: Vec<(String, String)> = Vec::new();
    let mut conflicts: Vec<String> = Vec::new();
    let mut pi: usize = 0;
    assert(patches@.take(0) =~= Seq::<Patch>::empty());
    assert(name_set(conflicts@) =~= conflict_set(entries(patches@.take(0))));
    while pi < patches.len()
        invariant
            pi <= patches@.len(),
            forall|k: Seq<char>| owner_in(pairs_view(owner@), k) == first_label(entries(patches@.take(pi as int)), k),
            sorted_names(conflicts@),
            name_set(conflicts@) == conflict_set(entries(patches@.take(pi as int))),
        decreases patches.len() - pi,
    {
        let p = &patches[pi];
        let ghost done = entries(patches@.take(pi as int));
        let ghost items = p.prog.items@;
        let locs = locate(&p.prog, p.src.as_str());
        let mut li: usize = 0;
        assert(items.take(0) =~= Seq::<Item>::empty());
        assert(done + items_entries(p.label@, p.src@, items.take(0)) =~= done);
        while li < locs.len()
            invariant
                li <= locs@.len(),
                locs@.len() == items.len(),
                forall|k: Seq<char>| owner_in(pairs_view(owner@), k) == first_label(done + items_entries(p.label@, p.src@, items.take(li as int)), k),
                sorted_names(conflicts@),
                name_set(conflicts@) == conflict_set(done + items_entries(p.label@, p.src@, items.take(li as int))),
            decreases locs.len() - li,
        {
            let ghost es = done + items_entries(p.label@, p.src@, items.take(li as int));
            let ghost e = item_entry(p.label@, p.src@, items[li as int]);
            proof {
                assert(items.take(li + 1).drop_last() =~= items.take(li as int));
                assert(items.take(li + 1).last() == items[li as int]);
                assert(done + items_entries(p.label@, p.src@, items.take(li + 1)) =~= es.push(e));
                assert(locates(locs@[li as int], p.src@, items[li as int]));
                lemma_conflicts_push(es, e);
                assert forall|k: Seq<char>| #[trigger] first_label(es.push(e), k) == match first_label(es, k) {
                    Some(l) => Some(l),
                    None => if e.key == k { Some(e.label) } else { None },
                } by {
                    lemma_first_label_push(es, e, k);
                }
            }
            let key = &locs[li].key;
            let ghost before_owner = owner@;
            match owner_lookup(&owner, key.as_str()) {
                Some(first) => {
                    if !str_eq(first.as_str(), p.label.as_str()) {
                        let mut msg = owned("  ");
                        push_str(&mut msg, key.as_str());
                        push_str(&mut msg, " \u{2014} touched by ");
                        push_str(&mut msg, first.as_str());
                        push_str(&mut msg, " and ");
                        push_str(&mut msg, p.label.as_str());
                        set_insert(&mut conflicts, msg);
                        proof {
                            assert(name_set(conflicts@) =~= conflict_set(es.push(e)));
                        }
                    } else {
                        proof {
                            assert(name_set(conflicts@) =~= conflict_set(es.push(e)));
                        }
                    }
                },
                None => {
                    owner.push((copy_string(key), copy_string(&p.label)));
                    proof {
                        assert(pairs_view(owner@) =~= pairs_view(before_owner).push((key@, p.label@)));
                        assert forall|k: Seq<char>| owner_in(pairs_view(owner@), k) == first_label(es.push(e), k) by {
                            assert(pairs_view(owner@).drop_last() =~= pairs_view(before_owner));
                            assert(owner_in(pairs_view(before_owner), k) == first_label(es, k));
                            lemma_first_label_push(es, e, k);
                            assert(e.key == key@);
                        }
                        assert(name_set(conflicts@) =~= conflict_set(es.push(e)));
                    }
                },
            }
            li += 1;
        }
        proof {
            assert(items.take(items.len() as int) =~= items);
            assert(patches@.take(pi + 1).drop_last() =~= patches@.take(pi as int));
            assert(patches@.take(pi + 1).last() == patches@[pi as int]);
        }
        pi += 1;
    }
    assert(patches@.take(patches@.len() as int) =~= patches@);
    conflicts
}


/// Lines and signature of the last base item with key `k`.
pub open spec fn base_target(items: Seq<Item>, src: Seq<char>, k: Seq<char>) -> Option<(nat, nat, Option<Seq<char>>)>
    decreases items.len(),
{
    if items.len() == 0 {
        None
    } else if key_spec(items.last()) == k {
        Some((loc_start(src, items.last()), loc_end(src, items.last()), sig_spec(items.last())))
    } else {
        base_target(items.drop_last(), src, k)
    }
}

pub open spec fn sig_msg(key: Seq<char>, label: Seq<char>, old: Seq<char>, new: Seq<char>) -> Seq<char> {
    "  "@ + key + " ("@ + label + ")\n      was: "@ + old + "\n      now: "@ + new
}

/// Replacements: the base item's lines and the patch item's text.
pub open spec fn plan_edits(es: Seq<EntryView>, items: Seq<Item>, src: Seq<char>) -> Seq<(nat, nat, Seq<char>)>
    decreases es.len(),
{
    if es.len() == 0 {
        seq![]
    } else {
        let r = plan_edits(es.drop_last(), items, src);
        match base_target(items, src, es.last().key) {
            Some(t) => r.push((t.0, t.1, es.last().text)),
            None => r,
        }
    }
}

/// Keys the base has (`has`) or lacks (`!has`), in patch order.
pub open spec fn plan_keys(es: Seq<EntryView>, items: Seq<Item>, src: Seq<char>, has: bool) -> Seq<Seq<char>>
    decreases es.len(),
{
    if es.len() == 0 {
        seq![]
    } else {
        let r = plan_keys(es.drop_last(), items, src, has);
        if (base_target(items, src, es.last().key) is Some) == has {
            r.push(es.last().key)
        } else {
            r
        }
    }
}

/// Texts of the items the base lacks, in patch order.
pub open spec fn plan_appends(es: Seq<EntryView>, items: Seq<Item>, src: Seq<char>) -> Seq<Seq<char>>
    decreases es.len(),
{
    if es.len() == 0 {
        seq![]
    } else {
        let r = plan_appends(es.drop_last(), items, src);
        if base_target(items, src, es.last().key) is None {
            r.push(es.last().text)
        } else {
            r
        }
    }
}

/// Replacements of a definition by one with another signature.
pub open spec fn plan_sig_changes(es: Seq<EntryView>, items: Seq<Item>, src: Seq<char>) -> Seq<Seq<char>>
    decreases es.len(),
{
    if es.len() == 0 {
        seq![]
    } else {
        let r = plan_sig_changes(es.drop_last(), items, src);
        let e = es.last();
        match base_target(items, src, e.key) {
            Some(t) => match (e.sig, t.2) {
                (Some(new), Some(old)) => if new != old {
                    r.push(sig_msg(e.key, e.label, old, new))
                } else {
                    r
                },
                _ => r,
            },
            None => r,
        }
    }
}

/// Every patch item's lines are in order (its text can be cut out).
pub open spec fn patch_ranges_ok(ps: Seq<Patch>) -> bool {
    forall|i: int, j: int|
        0 <= i < ps.len() && 0 <= j < ps[i].prog.items@.len() ==> loc_start(ps[i].src@, #[trigger] ps[i].prog.items@[j]) - 1
            <= loc_end(ps[i].src@, ps[i].prog.items@[j])
}

pub open spec fn edits_view(v: Seq<(usize, usize, String)>) -> Seq<(nat, nat, Seq<char>)> {
    v.map_values(|e: (usize, usize, String)| (e.0 as nat, e.1 as nat, e.2@))
}

proof fn lemma_pos_after_bound_line(src: Seq<char>, off: nat)
    ensures
        line_at(src, off) >= 1,
{
    crate::lines::lemma_pos_after_bound(src.take(crate::lines::chars_before(src, off)));
}

proof fn lemma_ext_up_pos(ls: Seq<Seq<char>>, f: nat)
    requires
        f >= 1,
    ensures
        1 <= ext_up(ls, f) <= f,
    decreases f,
{
    if f > 1 && f - 2 < ls.len() && crate::index::is_comment_line(ls[f - 2]) {
        lemma_ext_up_pos(ls, (f - 1) as nat);
    }
}

/// Position of the last located item with key `k`.
fn find_target(locs: &Vec<Located>, items: Ghost<Seq<Item>>, src: Ghost<Seq<char>>, k: &str) -> (r: Option<usize>)
    requires
        locs@.len() == items@.len(),
        forall|i: int| 0 <= i < locs@.len() ==> locates(#[trigger] locs@[i], src@, items@[i]),
    ensures
        match r {
            Some(j) => j < locs@.len() && base_target(items@, src@, k@) == Some(
                (locs@[j as int].start_line as nat, locs@[j as int].end_line as nat, opt_view(locs@[j as int].sig)),
            ),
            None => base_target(items@, src@, k@) is None,
        },
{
    let mut j: usize = locs.len();
    assert(items@.take(items@.len() as int) =~= items@);
    while j > 0
        invariant
            j <= locs@.len(),
            locs@.len() == items@.len(),
            forall|i: int| 0 <= i < locs@.len() ==> locates(#[trigger] locs@[i], src@, items@[i]),
            base_target(items@, src@, k@) == base_target(items@.take(j as int), src@, k@),
        decreases j,
    {
        proof {
            assert(items@.take(j as int).drop_last() =~= items@.take(j - 1));
            assert(items@.take(j as int).last() == items@[j - 1]);
            assert(locates(locs@[j - 1], src@, items@[j - 1]));
        }
        if str_eq(locs[j - 1].key.as_str(), k) {
            return Some(j - 1);
        }
        j -= 1;
    }
    None
}

/// What the merge does, item by item.
struct Plan {
    edits: Vec<(usize, usize, String)>,
    appends: Vec<String>,
    replaced: Vec<String>,
    added: Vec<String>,
    sig_changes: Vec<String>,
}

#[verifier::loop_isolation(false)]
fn plan(base_src: &str, base_prog: &Program, patches: &[Patch]) -> (r: Plan)
    requires
        base_src@.len() < usize::MAX,
        forall|i: int| 0 <= i < patches@.len() ==> (#[trigger] patches@[i]).src@.len() < usize::MAX,
        patch_ranges_ok(patches@),
    ensures
        edits_view(r.edits@) == plan_edits(entries(patches@), base_prog.items@, base_src@),
        names_view(r.appends@) == plan_appends(entries(patches@), base_prog.items@, base_src@),
        names_view(r.replaced@) == plan_keys(entries(patches@), base_prog.items@, base_src@, true),
        names_view(r.added@) == plan_keys(entries(patches@), base_prog.items@, base_src@, false),
        names_view(r.sig_changes@) == plan_sig_changes(entries(patches@), base_prog.items@, base_src@),
{
    let ghost bitems = base_prog.items@;
    let ghost bsrc = base_src@;
    let base_locs = locate(base_prog, base_src);
    let mut r = Plan {
        edits: Vec::new(),
        appends: Vec::new(),
        replaced: Vec::new(),
        added: Vec::new(),
        sig_changes: Vec::new(),
    };
    let mut pi: usize = 0;
    assert(patches@.take(0) =~= Seq::<Patch>::empty());
    assert(edits_view(r.edits@) =~= Seq::<(nat, nat, Seq<char>)>::empty());
    assert(names_view(r.appends@) =~= Seq::<Seq<char>>::empty());
    assert(names_view(r.replaced@) =~= Seq::<Seq<char>>::empty());
    assert(names_view(r.added@) =~= Seq::<Seq<char>>::empty());
    assert(names_view(r.sig_changes@) =~= Seq::<Seq<char>>::empty());
    while pi < patches.len()
        invariant
            pi <= patches@.len(),
            edits_view(r.edits@) == plan_edits(entries(patches@.take(pi as int)), bitems, bsrc),
            names_view(r.appends@) == plan_appends(entries(patches@.take(pi as int)), bitems, bsrc),
            names_view(r.replaced@) == plan_keys(entries(patches@.take(pi as int)), bitems, bsrc, true),
            names_view(r.added@) == plan_keys(entries(patches@.take(pi as int)), bitems, bsrc, false),
            names_view(r.sig_changes@) == plan_sig_changes(entries(patches@.take(pi as int)), bitems, bsrc),
        decreases patches.len() - pi,
    {
        let p = &patches[pi];
        let ghost done = entries(patches@.take(pi as int));
        let ghost items = p.prog.items@;
        let locs = locate(&p.prog, p.src.as_str());
        let mut li: usize = 0;
        assert(items.take(0) =~= Seq::<Item>::empty());
        assert(done + items_entries(p.label@, p.src@, items.take(0)) =~= done);
        while li < locs.len()
            invariant
                li <= locs@.len(),
                locs@.len() == items.len(),
                edits_view(r.edits@) == plan_edits(done + items_entries(p.label@, p.src@, items.take(li as int)), bitems, bsrc),
                names_view(r.appends@) == plan_appends(done + items_entries(p.label@, p.src@, items.take(li as int)), bitems, bsrc),
                names_view(r.replaced@) == plan_keys(done + items_entries(p.label@, p.src@, items.take(li as int)), bitems, bsrc, true),
                names_view(r.added@) == plan_keys(done + items_entries(p.label@, p.src@, items.take(li as int)), bitems, bsrc, false),
                names_view(r.sig_changes@) == plan_sig_changes(done + items_entries(p.label@, p.src@, items.take(li as int)), bitems, bsrc),
            decreases locs.len() - li,
        {
            let ghost es = done + items_entries(p.label@, p.src@, items.take(li as int));
            let ghost e = item_entry(p.label@, p.src@, items[li as int]);
            let ghost es2 = es.push(e);
            proof {
                assert(items.take(li + 1).drop_last() =~= items.take(li as int));
                assert(items.take(li + 1).last() == items[li as int]);
                assert(done + items_entries(p.label@, p.src@, items.take(li + 1)) =~= es2);
                assert(es2.drop_last() =~= es);
                assert(locates(locs@[li as int], p.src@, items[li as int]));
                assert(loc_start(patches@[pi as int].src@, patches@[pi as int].prog.items@[li as int]) - 1
                    <= loc_end(patches@[pi as int].src@, patches@[pi as int].prog.items@[li as int]));
                lemma_pos_after_bound_line(p.src@, item_span_spec(items[li as int]).start as nat);
                lemma_ext_up_pos(lines_of(p.src@), line_at(p.src@, item_span_spec(items[li as int]).start as nat));
            }
            let loc = &locs[li];
            let text = item_text(p.src.as_str(), loc);
            let ghost be = r.edits@;
            let ghost ba = names_view(r.appends@);
            let ghost br = names_view(r.replaced@);
            let ghost bd = names_view(r.added@);
            let ghost bs = names_view(r.sig_changes@);
            match find_target(&base_locs, Ghost(bitems), Ghost(bsrc), loc.key.as_str()) {
                Some(t) => {
                    let target = &base_locs[t];
                    match (&loc.sig, &target.sig) {
                        (Some(new_sig), Some(old_sig)) => {
                            if !str_eq(new_sig.as_str(), old_sig.as_str()) {
                                let mut msg = owned("  ");
                                push_str(&mut msg, loc.key.as_str());
                                push_str(&mut msg, " (");
                                push_str(&mut msg, p.label.as_str());
                                push_str(&mut msg, ")\n      was: ");
                                push_str(&mut msg, old_sig.as_str());
                                push_str(&mut msg, "\n      now: ");
                                push_str(&mut msg, new_sig.as_str());
                                r.sig_changes.push(msg);
                                proof {
                                    assert(names_view(r.sig_changes@) =~= bs.push(msg@));
                                }
                            }
                        },
                        _ => {},
                    }
                    r.edits.push((target.start_line, target.end_line, text));
                    r.replaced.push(copy_string(&loc.key));
                    proof {
                        assert(edits_view(r.edits@) =~= edits_view(be).push(
                            (target.start_line as nat, target.end_line as nat, text@),
                        ));
                        assert(names_view(r.replaced@) =~= br.push(loc.key@));
                    }
                },
                None => {
                    r.appends.push(text);
                    r.added.push(copy_string(&loc.key));
                    proof {
                        assert(names_view(r.appends@) =~= ba.push(text@));
                        assert(names_view(r.added@) =~= bd.push(loc.key@));
                    }
                },
            }
            li += 1;
        }
        proof {
            assert(items.take(items.len() as int) =~= items);
            assert(patches@.take(pi + 1).drop_last() =~= patches@.take(pi as int));
            assert(patches@.take(pi + 1).last() == patches@[pi as int]);
        }
        pi += 1;
    }
    assert(patches@.take(patches@.len() as int) =~= patches@);
    r
}


/// Inserts an edit after every edit starting at or after its line.
pub open spec fn ins_desc(s: Seq<(nat, nat, Seq<char>)>, e: (nat, nat, Seq<char>)) -> Seq<(nat, nat, Seq<char>)>
    decreases s.len(),
{
    if s.len() == 0 {
        seq![e]
    } else if s.last().0 >= e.0 {
        s.push(e)
    } else {
        ins_desc(s.drop_last(), e).push(s.last())
    }
}

/// Edits by decreasing start line, edits with equal starts in their order.
pub open spec fn sort_desc(es: Seq<(nat, nat, Seq<char>)>) -> Seq<(nat, nat, Seq<char>)>
    decreases es.len(),
{
    if es.len() == 0 {
        seq![]
    } else {
        ins_desc(sort_desc(es.drop_last()), es.last())
    }
}

/// Lines `e.0..=e.1` (1-based) replaced by the lines of `e.2`.
pub open spec fn apply_edit(ls: Seq<Seq<char>>, e: (nat, nat, Seq<char>)) -> Seq<Seq<char>> {
    ls.subrange(0, e.0 - 1) + lines_of(e.2) + ls.subrange(e.1 as int, ls.len() as int)
}

pub open spec fn apply_edits(ls: Seq<Seq<char>>, es: Seq<(nat, nat, Seq<char>)>) -> Seq<Seq<char>>
    decreases es.len(),
{
    if es.len() == 0 {
        ls
    } else {
        apply_edits(apply_edit(ls, es[0]), es.drop_first())
    }
}

/// Each edit's lines lie within the text as the earlier edits left it.
pub open spec fn edits_fit(ls: Seq<Seq<char>>, es: Seq<(nat, nat, Seq<char>)>) -> bool
    decreases es.len(),
{
    if es.len() == 0 {
        true
    } else {
        &&& 1 <= es[0].0
        &&& es[0].0 - 1 <= es[0].1 <= ls.len()
        &&& edits_fit(apply_edit(ls, es[0]), es.drop_first())
    }
}

fn sort_edits(v: Vec<(usize, usize, String)>) -> (r: Vec<(usize, usize, String)>)
    ensures
        edits_view(r@) == sort_desc(edits_view(v@)),
{
    let ghost ev = edits_view(v@);
    let mut out: Vec<(usize, usize, String)> = Vec::new();
    let mut v = v;
    let mut rest: Vec<(usize, usize, String)> = Vec::new();
    // take the edits in their order
    while v.len() > 0
        invariant
            edits_view(rest@) + edits_view(v@).reverse() == ev.reverse(),
        decreases v.len(),
    {
        let ghost b = edits_view(v@);
        let x = v.pop().unwrap();
        let ghost br = edits_view(rest@);
        rest.push(x);
        proof {
            assert(b =~= edits_view(v@).push((x.0 as nat, x.1 as nat, x.2@)));
            assert(edits_view(rest@) =~= br.push((x.0 as nat, x.1 as nat, x.2@)));
            assert(b.reverse() =~= seq![(x.0 as nat, x.1 as nat, x.2@)] + edits_view(v@).reverse());
            assert(edits_view(rest@) + edits_view(v@).reverse() =~= br + b.reverse());
        }
    }
    proof {
        assert(edits_view(v@).reverse() =~= Seq::<(nat, nat, Seq<char>)>::empty());
        assert(edits_view(rest@) =~= ev.reverse());
    }
    // `rest` holds the edits last first; take them back in order
    let mut n: usize = 0;
    let total: usize = rest.len();
    assert(ev.take(0) =~= Seq::<(nat, nat, Seq<char>)>::empty());
    while rest.len() > 0
        invariant
            ev.len() == total,
            n + rest@.len() == ev.len(),
            edits_view(rest@) == ev.reverse().take(rest@.len() as int),
            edits_view(out@) == sort_desc(ev.take(n as int)),
        decreases rest.len(),
    {
        let ghost rb = edits_view(rest@);
        let x = rest.pop().unwrap();
        let ghost xe = (x.0 as nat, x.1 as nat, x.2@);
        proof {
            assert(rb.last() == xe);
            assert(ev.reverse()[rest@.len() as int] == xe);
            assert(ev[n as int] == xe);
            assert(edits_view(rest@) =~= ev.reverse().take(rest@.len() as int));
            assert(ev.take(n + 1).drop_last() =~= ev.take(n as int));
            assert(ev.take(n + 1).last() == xe);
        }
        let ghost s0 = edits_view(out@);
        let mut p: usize = out.len();
        assert(s0.take(p as int) =~= s0);
        assert(s0.skip(p as int) =~= Seq::<(nat, nat, Seq<char>)>::empty());
        while p > 0 && out[p - 1].0 < x.0
            invariant
                p <= out@.len(),
                s0 == edits_view(out@),
                xe == (x.0 as nat, x.1 as nat, x.2@),
                ins_desc(s0, xe) == ins_desc(s0.take(p as int), xe) + s0.skip(p as int),
            decreases p,
        {
            proof {
                assert(s0.take(p as int).drop_last() =~= s0.take(p - 1));
                assert(s0.take(p as int).last() == s0[p - 1]);
                assert(s0[p - 1].0 == out@[p - 1].0);
                assert(s0.take(p as int).len() > 0);
                assert(out@[p - 1].0 < x.0);
                assert(s0.take(p as int).last().0 < xe.0);
                assert(ins_desc(s0.take(p as int), xe) == ins_desc(s0.take(p as int).drop_last(), xe).push(s0.take(p as int).last()));
                assert(ins_desc(s0.take(p as int), xe) == ins_desc(s0.take(p - 1), xe).push(s0[p - 1]));
                assert(s0.skip(p - 1) =~= seq![s0[p - 1]] + s0.skip(p as int));
                assert(ins_desc(s0.take(p - 1), xe).push(s0[p - 1]) + s0.skip(p as int) =~= ins_desc(s0.take(p - 1), xe) + s0.skip(p - 1));
            }
            p -= 1;
        }
        proof {
            if p > 0 {
                assert(s0.take(p as int).last() == s0[p - 1]);
                assert(s0[p - 1].0 == out@[p - 1].0);
            } else {
                assert(s0.take(0) =~= Seq::<(nat, nat, Seq<char>)>::empty());
            }
        }
        out.insert(p, x);
        proof {
            assert(edits_view(out@) =~= s0.take(p as int).push(xe) + s0.skip(p as int));
        }
        n += 1;
    }
    proof {
        assert(ev.take(ev.len() as int) =~= ev);
    }
    out
}

fn copy_chars(v: &Vec<char>) -> (r: Vec<char>)
    ensures
        r@ == v@,
{
    let mut r: Vec<char> = Vec::new();
    let mut i: usize = 0;
    while i < v.len()
        invariant
            i <= v@.len(),
            r@ == v@.take(i as int),
        decreases v.len() - i,
    {
        r.push(v[i]);
        proof {
            assert(v@.take(i + 1) =~= v@.take(i as int).push(v@[i as int]));
        }
        i += 1;
    }
    assert(v@.take(v@.len() as int) =~= v@);
    r
}

fn apply_one(ls: &Vec<Vec<char>>, s: usize, e: usize, text: &str) -> (r: Vec<Vec<char>>)
    requires
        1 <= s,
        s - 1 <= e <= ls@.len(),
    ensures
        lines_view(r@) == apply_edit(lines_view(ls@), (s as nat, e as nat, text@)),
{
    let ghost lv = lines_view(ls@);
    let cs = chars_of(text);
    let mid = lines_vec(cs.as_slice());
    let ghost mv = lines_view(mid@);
    assert(mv == lines_of(text@));
    let mut out: Vec<Vec<char>> = Vec::new();
    let mut i: usize = 0;
    while i < s - 1
        invariant
            i <= s - 1,
            s - 1 <= ls@.len(),
            lv == lines_view(ls@),
            lines_view(out@) == lv.subrange(0, i as int),
        decreases s - 1 - i,
    {
        let ghost b = lines_view(out@);
        out.push(copy_chars(&ls[i]));
        proof {
            assert(lines_view(out@) =~= b.push(ls@[i as int]@));
            assert(lv.subrange(0, i + 1) =~= lv.subrange(0, i as int).push(lv[i as int]));
        }
        i += 1;
    }
    let mut j: usize = 0;
    let ghost base = lines_view(out@);
    while j < mid.len()
        invariant
            j <= mid@.len(),
            mv == lines_view(mid@),
            lines_view(out@) == base + mv.take(j as int),
        decreases mid.len() - j,
    {
        let ghost b = lines_view(out@);
        out.push(copy_chars(&mid[j]));
        proof {
            assert(lines_view(out@) =~= b.push(mid@[j as int]@));
            assert(mv.take(j + 1) =~= mv.take(j as int).push(mv[j as int]));
        }
        j += 1;
    }
    assert(mv.take(mv.len() as int) =~= mv);
    let ghost base2 = lines_view(out@);
    let mut k: usize = e;
    while k < ls.len()
        invariant
            e <= k <= ls@.len(),
            lv == lines_view(ls@),
            lines_view(out@) == base2 + lv.subrange(e as int, k as int),
        decreases ls.len() - k,
    {
        let ghost b = lines_view(out@);
        out.push(copy_chars(&ls[k]));
        proof {
            assert(lines_view(out@) =~= b.push(ls@[k as int]@));
            assert(lv.subrange(e as int, k + 1) =~= lv.subrange(e as int, k as int).push(lv[k as int]));
        }
        k += 1;
    }
    assert(lines_view(out@) =~= apply_edit(lv, (s as nat, e as nat, text@)));
    out
}

/// Applies the edits in order, or gives `None` when one does not fit.
fn try_apply(ls: Vec<Vec<char>>, edits: &Vec<(usize, usize, String)>) -> (r: Option<Vec<Vec<char>>>)
    ensures
        (r is Some) == edits_fit(lines_view(ls@), edits_view(edits@)),
        match r {
            Some(v) => lines_view(v@) == apply_edits(lines_view(ls@), edits_view(edits@)),
            None => true,
        },
{
    let ghost ev = edits_view(edits@);
    let ghost l0 = lines_view(ls@);
    let mut cur = ls;
    let mut i: usize = 0;
    assert(ev.skip(0) =~= ev);
    while i < edits.len()
        invariant
            i <= edits@.len(),
            ev == edits_view(edits@),
            l0 == lines_view(ls@),
            edits_fit(l0, ev) == edits_fit(lines_view(cur@), ev.skip(i as int)),
            apply_edits(l0, ev) == apply_edits(lines_view(cur@), ev.skip(i as int)),
        decreases edits.len() - i,
    {
        let s = edits[i].0;
        let e = edits[i].1;
        proof {
            assert(ev.skip(i as int)[0] == ev[i as int]);
            assert(ev.skip(i as int).drop_first() =~= ev.skip(i + 1));
            assert(lines_view(cur@).len() == cur@.len());
        }
        if !(1 <= s && s - 1 <= e && e <= cur.len()) {
            proof {
                assert(ev.skip(i as int).len() > 0);
                assert(ev.skip(i as int)[0].0 == s as nat && ev.skip(i as int)[0].1 == e as nat);
                assert(!edits_fit(lines_view(cur@), ev.skip(i as int)));
            }
            return None;
        }
        cur = apply_one(&cur, s, e, edits[i].2.as_str());
        i += 1;
    }
    proof {
        assert(ev.skip(i as int) =~= Seq::<(nat, nat, Seq<char>)>::empty());
    }
    Some(cur)
}

pub open spec fn splice_sep() -> Seq<char> {
    "\n\n# ------------------------------------------------------------\n"@ + "# Spliced in by `weftc splice`\n"@
        + "# ------------------------------------------------------------\n\n"@
}

/// The merged program text: base lines with replacements applied from the
/// bottom up, then the new items in a section of their own; it ends with a
/// newline.
pub open spec fn merged_text(base_src: Seq<char>, items: Seq<Item>, es: Seq<EntryView>) -> Seq<char> {
    let body = join_spec(apply_edits(lines_of(base_src), sort_desc(plan_edits(es, items, base_src))), "\n"@);
    let apps = plan_appends(es, items, base_src);
    if apps.len() > 0 {
        body + splice_sep() + join_spec(apps, "\n\n"@) + "\n"@
    } else if body.len() > 0 && body.last() == '\n' {
        body
    } else {
        body + "\n"@
    }
}

/// The merge can be carried out: every patch item's text can be cut out,
/// and every replacement's lines lie within the text.
pub open spec fn splice_fits(base_src: Seq<char>, items: Seq<Item>, ps: Seq<Patch>) -> bool {
    &&& patch_ranges_ok(ps)
    &&& edits_fit(lines_of(base_src), sort_desc(plan_edits(entries(ps), items, base_src)))
}

pub open spec fn conflict_text(es: Seq<EntryView>) -> Seq<char> {
    let cs = sorted_of(conflict_set(es));
    "conflict: "@ + nat_text(cs.len()) + " definition(s) edited by more than one patch\n"@ + join_spec(cs, "\n"@)
}

/// Whether every patch item's text can be cut out.
fn patch_ranges_check(patches: &[Patch]) -> (r: bool)
    requires
        forall|i: int| 0 <= i < patches@.len() ==> (#[trigger] patches@[i]).src@.len() < usize::MAX,
    ensures
        r == patch_ranges_ok(patches@),
{
    let mut pi: usize = 0;
    while pi < patches.len()
        invariant
            pi <= patches@.len(),
            forall|i: int| 0 <= i < patches@.len() ==> (#[trigger] patches@[i]).src@.len() < usize::MAX,
            forall|i: int, j: int|
                0 <= i < pi && 0 <= j < patches@[i].prog.items@.len() ==> loc_start(patches@[i].src@, #[trigger] patches@[i].prog.items@[j]) - 1
                    <= loc_end(patches@[i].src@, patches@[i].prog.items@[j]),
        decreases patches.len() - pi,
    {
        let p = &patches[pi];
        let locs = locate(&p.prog, p.src.as_str());
        let mut li: usize = 0;
        while li < locs.len()
            invariant
                li <= locs@.len(),
                locs@.len() == p.prog.items@.len(),
                pi < patches@.len(),
                p == patches@[pi as int],
                forall|k: int| 0 <= k < locs@.len() ==> locates(#[trigger] locs@[k], p.src@, p.prog.items@[k]),
                forall|j: int| 0 <= j < li ==> loc_start(p.src@, #[trigger] p.prog.items@[j]) - 1 <= loc_end(p.src@, p.prog.items@[j]),
            decreases locs.len() - li,
        {
            proof {
                assert(locates(locs@[li as int], p.src@, p.prog.items@[li as int]));
                lemma_pos_after_bound_line(p.src@, item_span_spec(p.prog.items@[li as int]).start as nat);
                lemma_ext_up_pos(lines_of(p.src@), line_at(p.src@, item_span_spec(p.prog.items@[li as int]).start as nat));
            }
            if locs[li].start_line - 1 > locs[li].end_line {
                proof {
                    assert(!(loc_start(patches@[pi as int].src@, patches@[pi as int].prog.items@[li as int]) - 1
                        <= loc_end(patches@[pi as int].src@, patches@[pi as int].prog.items@[li as int])));
                }
                return false;
            }
            li += 1;
        }
        pi += 1;
    }
    true
}

/// Whether `splice` can merge these patches: there is a conflict (which it
/// reports), or every cut and every replacement fits.
pub fn can_splice(base_src: &str, base_prog: &Program, patches: &[Patch]) -> (r: bool)
    requires
        base_src@.len() < usize::MAX,
        forall|i: int| 0 <= i < patches@.len() ==> (#[trigger] patches@[i]).src@.len() < usize::MAX,
    ensures
        r == (conflict_set(entries(patches@)) == Set::<Seq<char>>::empty() ==> splice_fits(
            base_src@,
            base_prog.items@,
            patches@,
        )),
{
    let conflicts = splice_conflicts(patches);
    proof {
        crate::names::lemma_name_set_empty(conflicts@);
    }
    if conflicts.len() > 0 {
        return true;
    }
    if !patch_ranges_check(patches) {
        return false;
    }
    let pl = plan(base_src, base_prog, patches);
    let edits = sort_edits(pl.edits);
    let cs = chars_of(base_src);
    let lines = lines_vec(cs.as_slice());
    proof {
        assert(lines_view(lines@) == lines_of(base_src@));
    }
    let applied = try_apply(lines, &edits);
    applied.is_some()
}

/// Merge patches into a base program by definition name. Two patches
/// touching the same name under different labels is a conflict.
pub fn splice(base_src: &str, base_prog: &Program, patches: &[Patch]) -> (r: Result<Merge, String>)
    requires
        base_src@.len() < usize::MAX,
        forall|i: int| 0 <= i < patches@.len() ==> (#[trigger] patches@[i]).src@.len() < usize::MAX,
        conflict_set(entries(patches@)) == Set::<Seq<char>>::empty() ==> splice_fits(
            base_src@,
            base_prog.items@,
            patches@,
        ),
    ensures
        match r {
            Err(e) => conflict_set(entries(patches@)) != Set::<Seq<char>>::empty() && e@ == conflict_text(
                entries(patches@),
            ),
            Ok(m) => {
                let es = entries(patches@);
                let items = base_prog.items@;
                &&& conflict_set(es) == Set::<Seq<char>>::empty()
                &&& m.text@ == merged_text(base_src@, items, es)
                &&& sorted_seq(names_view(m.replaced@))
                &&& names_view(m.replaced@).to_multiset() == plan_keys(es, items, base_src@, true).to_multiset()
                &&& sorted_seq(names_view(m.added@))
                &&& names_view(m.added@).to_multiset() == plan_keys(es, items, base_src@, false).to_multiset()
                &&& sorted_seq(names_view(m.signature_changes@))
                &&& names_view(m.signature_changes@).to_multiset() == plan_sig_changes(
                    es,
                    items,
                    base_src@,
                ).to_multiset()
            },
        },
{
    let ghost es = entries(patches@);
    let conflicts = splice_conflicts(patches);
    proof {
        crate::names::lemma_name_set_empty(conflicts@);
        lemma_names_sorted_of(conflicts@);
    }
    if conflicts.len() > 0 {
        let mut e = owned("conflict: ");
        push_str(&mut e, usize_text(conflicts.len()).as_str());
        push_str(&mut e, " definition(s) edited by more than one patch\n");
        let j = join_strings(&conflicts, "\n");
        push_str(&mut e, j.as_str());
        proof {
            assert(names_texts(conflicts@) =~= names_view(conflicts@));
        }
        return Err(e);
    }
    let pl = plan(base_src, base_prog, patches);
    let edits = sort_edits(pl.edits);
    let cs = chars_of(base_src);
    let lines = lines_vec(cs.as_slice());
    proof {
        assert(lines_view(lines@) == lines_of(base_src@));
    }
    let applied = try_apply(lines, &edits);
    let done = match applied {
        Some(v) => v,
        None => Vec::new(),
    };
    proof {
        assert(lines_view(done@).len() == done@.len());
    }
    let mut out = join_lines(&done, 0, done.len());
    proof {
        assert(lines_view(done@).subrange(0, done@.len() as int) =~= lines_view(done@));
    }
    if pl.appends.len() > 0 {
        push_str(&mut out, "\n\n# ------------------------------------------------------------\n");
        push_str(&mut out, "# Spliced in by `weftc splice`\n");
        push_str(&mut out, "# ------------------------------------------------------------\n\n");
        let j = join_strings(&pl.appends, "\n\n");
        push_str(&mut out, j.as_str());
        push_str(&mut out, "\n");
        proof {
            assert(names_texts(pl.appends@) =~= names_view(pl.appends@));
        }
    } else {
        let oc = chars_of(out.as_str());
        if !(oc.len() > 0 && oc[oc.len() - 1] == '\n') {
            push_str(&mut out, "\n");
        }
    }
    let replaced = sort_strings(pl.replaced);
    let added = sort_strings(pl.added);
    let signature_changes = sort_strings(pl.sig_changes);
    Ok(Merge { text: out, replaced, added, signature_changes })
}


proof fn lemma_first_label_found(es: Seq<EntryView>, k: Seq<char>)
    ensures
        first_label(es, k) is Some <==> exists|j: int| 0 <= j < es.len() && (#[trigger] es[j]).key == k,
        first_label(es, k) is Some ==> exists|j: int|
            0 <= j < es.len() && (#[trigger] es[j]).key == k && es[j].label == first_label(es, k)->0 && forall|q: int|
                0 <= q < j ==> (#[trigger] es[q]).key != k,
    decreases es.len(),
{
    if es.len() > 0 {
        let d = es.drop_last();
        lemma_first_label_found(d, k);
        if first_label(d, k) is Some {
            let j = choose|j: int|
                0 <= j < d.len() && (#[trigger] d[j]).key == k && d[j].label == first_label(d, k)->0 && forall|q: int|
                    0 <= q < j ==> (#[trigger] d[q]).key != k;
            assert(es[j] == d[j]);
            assert forall|q: int| 0 <= q < j implies (#[trigger] es[q]).key != k by {
                assert(es[q] == d[q]);
            }
        } else {
            assert forall|q: int| 0 <= q < es.len() - 1 implies (#[trigger] es[q]).key != k by {
                assert(es[q] == d[q]);
            }
            if exists|j: int| 0 <= j < es.len() && (#[trigger] es[j]).key == k {
                let j = choose|j: int| 0 <= j < es.len() && (#[trigger] es[j]).key == k;
                assert(j == es.len() - 1);
            }
            if es.last().key == k {
                assert(es[es.len() - 1] == es.last());
            }
        }
    }
}

/// Patches never conflict exactly when every name they touch is touched
/// under one label only.
pub proof fn lemma_conflict_free(es: Seq<EntryView>)
    ensures
        (conflict_set(es) == Set::<Seq<char>>::empty()) <==> (forall|i: int, j: int|
            0 <= i < es.len() && 0 <= j < es.len() && (#[trigger] es[i]).key == (#[trigger] es[j]).key ==> es[i].label
                == es[j].label),
{
    if forall|i: int, j: int|
        0 <= i < es.len() && 0 <= j < es.len() && (#[trigger] es[i]).key == (#[trigger] es[j]).key ==> es[i].label
            == es[j].label {
        assert forall|m: Seq<char>| !conflict_set(es).contains(m) by {
            if conflict_set(es).contains(m) {
                let i = choose|i: int| 0 <= i < es.len() && conflict_at(es, i) == Some(m);
                let pre = es.take(i);
                lemma_first_label_found(pre, es[i].key);
                let j = choose|j: int|
                    0 <= j < pre.len() && (#[trigger] pre[j]).key == es[i].key && pre[j].label == first_label(pre, es[i].key)->0
                        && forall|q: int| 0 <= q < j ==> (#[trigger] pre[q]).key != es[i].key;
                assert(pre[j] == es[j]);
                assert(es[j].key == es[i].key);
            }
        }
        assert(conflict_set(es) =~= Set::<Seq<char>>::empty());
    } else {
        let (i, j) = choose|i: int, j: int|
            0 <= i < es.len() && 0 <= j < es.len() && (#[trigger] es[i]).key == (#[trigger] es[j]).key && es[i].label
                != es[j].label;
        let k = es[i].key;
        lemma_first_label_found(es, k);
        let f = choose|f: int|
            0 <= f < es.len() && (#[trigger] es[f]).key == k && es[f].label == first_label(es, k)->0 && forall|q: int|
                0 <= q < f ==> (#[trigger] es[q]).key != k;
        let m = if es[i].label != es[f].label { i } else { j };
        assert(es[m].key == k && es[m].label != es[f].label);
        assert(m > f);
        let pre = es.take(m);
        assert(pre[f] == es[f]);
        lemma_first_label_found(pre, k);
        let g = choose|g: int|
            0 <= g < pre.len() && (#[trigger] pre[g]).key == k && pre[g].label == first_label(pre, k)->0 && forall|q: int|
                0 <= q < g ==> (#[trigger] pre[q]).key != k;
        assert(pre[g] == es[g]);
        if g < f {
            assert(es[g].key != k);
        }
        if f < g {
            assert(pre[f].key != k);
        }
        assert(g == f);
        assert(conflict_at(es, m) == Some(conflict_msg(k, es[f].label, es[m].label)));
        assert(conflict_set(es).contains(conflict_msg(k, es[f].label, es[m].label)));
    }
}

/// Every patch item is either a replacement or an addition.
pub proof fn lemma_every_item_placed(es: Seq<EntryView>, items: Seq<Item>, src: Seq<char>)
    ensures
        plan_keys(es, items, src, true).len() + plan_keys(es, items, src, false).len() == es.len(),
        plan_edits(es, items, src).len() == plan_keys(es, items, src, true).len(),
        plan_appends(es, items, src).len() == plan_keys(es, items, src, false).len(),
    decreases es.len(),
{
    if es.len() > 0 {
        lemma_every_item_placed(es.drop_last(), items, src);
    }
}


proof fn lemma_join_closed(ls: Seq<Seq<char>>)
    requires
        ls.len() > 0,
    ensures
        join_spec(ls, "\n"@) + "\n"@ == closed_text(ls),
        ls.last().len() > 0 ==> join_spec(ls, "\n"@).len() > 0 && join_spec(ls, "\n"@).last() == ls.last().last(),
    decreases ls.len(),
{
    reveal_strlit("\n");
    if ls.len() == 1 {
        assert(ls.drop_first() =~= Seq::<Seq<char>>::empty());
        assert(closed_text(ls.drop_first()) =~= Seq::<char>::empty());
        assert(join_spec(ls, "\n"@) + "\n"@ =~= closed_text(ls));
    } else {
        let rest = ls.subrange(1, ls.len() as int);
        assert(rest =~= ls.drop_first());
        lemma_join_closed(rest);
        assert(join_spec(ls, "\n"@) + "\n"@ =~= ls[0] + seq!['\n'] + (join_spec(rest, "\n"@) + "\n"@));
        assert(rest.last() == ls.last());
    }
}

/// Splicing no patches into a text whose lines are each closed by a single
/// newline (no carriage returns, the last line not empty) gives the text
/// back unchanged.
pub proof fn lemma_splice_nothing(ls: Seq<Seq<char>>, items: Seq<Item>)
    requires
        ls.len() > 0,
        ls.last().len() > 0,
        plain_lines(ls),
    ensures
        merged_text(closed_text(ls), items, entries(Seq::<Patch>::empty())) == closed_text(ls),
{
    reveal_strlit("\n");
    lemma_lines_of_closed(ls);
    lemma_join_closed(ls);
    let es = entries(Seq::<Patch>::empty());
    assert(es =~= Seq::<EntryView>::empty());
    let src = closed_text(ls);
    assert(plan_edits(es, items, src) =~= Seq::<(nat, nat, Seq<char>)>::empty());
    assert(plan_appends(es, items, src) =~= Seq::<Seq<char>>::empty());
    assert(sort_desc(plan_edits(es, items, src)) =~= Seq::<(nat, nat, Seq<char>)>::empty());
    assert(apply_edits(lines_of(src), sort_desc(plan_edits(es, items, src))) == ls);
    let last = ls.last();
    assert(last[last.len() - 1] != '\n') by {
        assert(ls[ls.len() - 1][last.len() - 1] != '\n');
    }
}

} // verus!
