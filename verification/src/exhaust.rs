//! Match exhaustiveness: which cases a `match` leaves unhandled, given the
//! scrutinee's type.
use vstd::prelude::*;
use crate::ast::{Expr, PatKind, Pattern};
use crate::check::{Checker, contains_name, depth, find_key, lemma_infer_post_refl};
use crate::diag::{Diag, Span};
use crate::lexer::opt_seq;
use crate::text::{cat3, copy_string, nat_text, owned, push_str, usize_text};
use crate::types::{Ty, TyV, resolve_spec};

verus! {

/// A pattern that matches every value: `_` or a binder.
pub open spec fn irrefutable_spec(p: Pattern) -> bool {
    p.kind is Wildcard || p.kind is Bind
}

pub fn irrefutable(p: &Pattern) -> (r: bool)
    ensures
        r == irrefutable_spec(*p),
{
    match p.kind {
        PatKind::Wildcard | PatKind::Bind(_) => true,
        _ => false,
    }
}

pub open spec fn all_irrefutable_spec(ps: Seq<Pattern>) -> bool {
    forall|k: int| 0 <= k < ps.len() ==> irrefutable_spec(#[trigger] ps[k])
}

/// Whether every pattern of a list is irrefutable.
fn all_irrefutable(ps: &Vec<Pattern>) -> (r: bool)
    ensures
        r == all_irrefutable_spec(ps@),
{
    let mut i: usize = 0;
    while i < ps.len()
        invariant
            i <= ps@.len(),
            forall|k: int| 0 <= k < i ==> irrefutable_spec(#[trigger] ps@[k]),
        decreases ps.len() - i,
    {
        if !irrefutable(&ps[i]) {
            return false;
        }
        i += 1;
    }
    true
}

/// The texts of a list of strings.
pub open spec fn strs_view(v: Seq<String>) -> Seq<Seq<char>> {
    v.map_values(|s: String| s@)
}

/// `parts` joined by `sep`.
pub open spec fn join(parts: Seq<Seq<char>>, sep: Seq<char>) -> Seq<char>
    decreases parts.len(),
{
    if parts.len() == 0 {
        seq![]
    } else if parts.len() == 1 {
        parts[0]
    } else {
        join(parts.drop_last(), sep) + sep + parts.last()
    }
}

pub proof fn lemma_join_push(parts: Seq<Seq<char>>, sep: Seq<char>, x: Seq<char>)
    ensures
        join(parts.push(x), sep) == if parts.len() == 0 {
            x
        } else {
            join(parts, sep) + sep + x
        },
{
    assert(parts.push(x).drop_last() =~= parts);
}

// ---------- constructors ----------

/// The constructor that a pattern covers completely: `C(p, ...)` whose
/// sub-patterns are all irrefutable.
pub open spec fn covered_by(p: Pattern) -> Option<Seq<char>> {
    match p.kind {
        PatKind::Ctor(n, subs) => if all_irrefutable_spec(subs@) {
            Some(n@)
        } else {
            None
        },
        _ => None,
    }
}

/// The constructors that the arms cover completely, in order.
pub open spec fn covered_spec(arms: Seq<(Pattern, Expr)>) -> Seq<Seq<char>>
    decreases arms.len(),
{
    if arms.len() == 0 {
        seq![]
    } else {
        let rest = covered_spec(arms.drop_last());
        match covered_by(arms.last().0) {
            Some(n) => rest.push(n),
            None => rest,
        }
    }
}

/// The names of `needed` that `covered` lacks, in order.
pub open spec fn missing_names(needed: Seq<Seq<char>>, covered: Seq<Seq<char>>) -> Seq<Seq<char>>
    decreases needed.len(),
{
    if needed.len() == 0 {
        seq![]
    } else {
        let rest = missing_names(needed.drop_last(), covered);
        if covered.contains(needed.last()) {
            rest
        } else {
            rest.push(needed.last())
        }
    }
}

/// `None` when every needed name is covered; else the missing ones, joined
/// by `", "`.
pub open spec fn missing_of_spec(needed: Seq<Seq<char>>, covered: Seq<Seq<char>>) -> Option<Seq<char>> {
    let m = missing_names(needed, covered);
    if m.len() == 0 {
        None
    } else {
        Some(join(m, ", "@))
    }
}

/// Names of the constructors covered by an arm whose sub-patterns are all
/// irrefutable.
fn covered_ctors(arms: &Vec<(Pattern, Expr)>) -> (r: Vec<String>)
    ensures
        strs_view(r@) == covered_spec(arms@),
{
    let mut out: Vec<String> = Vec::new();
    let mut i: usize = 0;
    while i < arms.len()
        invariant
            i <= arms@.len(),
            strs_view(out@) == covered_spec(arms@.subrange(0, i as int)),
        decreases arms.len() - i,
    {
        proof {
            assert(arms@.subrange(0, i + 1).drop_last() =~= arms@.subrange(0, i as int));
        }
        if let PatKind::Ctor(n, subs) = &arms[i].0.kind {
            if all_irrefutable(subs) {
                let c = copy_string(n);
                proof {
                    assert(strs_view(out@.push(c)) =~= strs_view(out@).push(c@));
                }
                out.push(c);
            }
        }
        i += 1;
    }
    proof {
        assert(arms@.subrange(0, arms@.len() as int) =~= arms@);
    }
    out
}

/// The needed names not covered, joined by `", "`; `None` when all are.
fn missing_of(needed: &Vec<String>, covered: &Vec<String>) -> (r: Option<String>)
    ensures
        opt_seq(r) == missing_of_spec(strs_view(needed@), strs_view(covered@)),
{
    let ghost nv = strs_view(needed@);
    let ghost cv = strs_view(covered@);
    let mut s = String::new();
    let mut any = false;
    let mut i: usize = 0;
    proof {
        reveal_strlit(", ");
        assert(nv.subrange(0, 0) =~= Seq::<Seq<char>>::empty());
    }
    while i < needed.len()
        invariant
            i <= needed@.len(),
            nv == strs_view(needed@),
            cv == strs_view(covered@),
            s@ == join(missing_names(nv.subrange(0, i as int), cv), ", "@),
            any == (missing_names(nv.subrange(0, i as int), cv).len() > 0),
        decreases needed.len() - i,
    {
        let ghost m = missing_names(nv.subrange(0, i as int), cv);
        proof {
            assert(nv.subrange(0, i + 1).drop_last() =~= nv.subrange(0, i as int));
            assert(nv.subrange(0, i + 1).last() == needed@[i as int]@);
            assert(cv.contains(needed@[i as int]@) == exists|k: int| 0 <= k < covered@.len() && (#[trigger] covered@[k])@ == needed@[i as int]@) by {
                if cv.contains(needed@[i as int]@) {
                    let k = choose|k: int| 0 <= k < cv.len() && cv[k] == needed@[i as int]@;
                    assert(covered@[k]@ == needed@[i as int]@);
                }
                if exists|k: int| 0 <= k < covered@.len() && (#[trigger] covered@[k])@ == needed@[i as int]@ {
                    let k = choose|k: int| 0 <= k < covered@.len() && (#[trigger] covered@[k])@ == needed@[i as int]@;
                    assert(cv[k] == needed@[i as int]@);
                }
            }
        }
        if !contains_name(covered, needed[i].as_str()) {
            proof {
                lemma_join_push(m, ", "@, needed@[i as int]@);
            }
            if any {
                push_str(&mut s, ", ");
            }
            push_str(&mut s, needed[i].as_str());
            any = true;
        }
        i += 1;
    }
    proof {
        assert(nv.subrange(0, needed@.len() as int) =~= nv);
    }
    if any {
        Some(s)
    } else {
        None
    }
}

// ---------- Bool and List scrutinees ----------

/// Some arm is the literal `b`.
pub open spec fn has_bool_arm(arms: Seq<(Pattern, Expr)>, b: bool) -> bool {
    exists|k: int| 0 <= k < arms.len() && (#[trigger] arms[k]).0.kind == PatKind::LitBool(b)
}

/// What a match on a Bool misses, given whether `true` and `false` arms occur.
pub open spec fn bool_missing(t: bool, f: bool) -> Option<Seq<char>> {
    if t && f {
        None
    } else if t {
        Some("false"@)
    } else if f {
        Some("true"@)
    } else {
        Some("true, false"@)
    }
}

/// A list pattern whose heads are all irrefutable: its number of heads and
/// whether it has a rest binder.
pub open spec fn list_arm(p: Pattern) -> Option<(nat, bool)> {
    match p.kind {
        PatKind::List { heads, rest } => if all_irrefutable_spec(heads@) {
            Some((heads@.len(), rest is Some))
        } else {
            None
        },
        _ => None,
    }
}

/// The fewest heads of a list arm with a rest binder, if there is one.
pub open spec fn min_rest(arms: Seq<(Pattern, Expr)>) -> Option<nat>
    decreases arms.len(),
{
    if arms.len() == 0 {
        None
    } else {
        let m = min_rest(arms.drop_last());
        match list_arm(arms.last().0) {
            Some((n, true)) => Some(
                match m {
                    Some(x) => if n < x {
                        n
                    } else {
                        x
                    },
                    None => n,
                },
            ),
            _ => m,
        }
    }
}

/// The lengths of the list arms without a rest binder, in order.
pub open spec fn exact_lens(arms: Seq<(Pattern, Expr)>) -> Seq<nat>
    decreases arms.len(),
{
    if arms.len() == 0 {
        seq![]
    } else {
        let e = exact_lens(arms.drop_last());
        match list_arm(arms.last().0) {
            Some((n, false)) => e.push(n),
            _ => e,
        }
    }
}

/// The lengths below `k` that no exact list arm handles, increasing.
pub open spec fn lens_missing(k: nat, exact: Seq<nat>) -> Seq<nat>
    decreases k,
{
    if k == 0 {
        seq![]
    } else {
        let r = lens_missing((k - 1) as nat, exact);
        if exact.contains((k - 1) as nat) {
            r
        } else {
            r.push((k - 1) as nat)
        }
    }
}

pub open spec fn len_phrases(ns: Seq<nat>) -> Seq<Seq<char>> {
    ns.map_values(|n: nat| "lists of length "@ + nat_text(n))
}

/// What a match on a List misses.
pub open spec fn list_missing(arms: Seq<(Pattern, Expr)>) -> Option<Seq<char>> {
    match min_rest(arms) {
        Some(k) => {
            let m = lens_missing(k, exact_lens(arms));
            if m.len() == 0 {
                None
            } else {
                Some(join(len_phrases(m), ", "@))
            }
        },
        None => Some("longer lists (add a `[x, ..rest]` or `_` arm)"@),
    }
}

/// Pattern `p` matches every list of length `n`: a list pattern with
/// irrefutable heads, exactly `n` of them, or at most `n` and a rest binder.
pub open spec fn handles_len(p: Pattern, n: nat) -> bool {
    match list_arm(p) {
        Some((h, true)) => h <= n,
        Some((h, false)) => h == n,
        None => false,
    }
}

/// Some arm handles every list of length `n`.
pub open spec fn len_handled(arms: Seq<(Pattern, Expr)>, n: nat) -> bool {
    exists|i: int| 0 <= i < arms.len() && #[trigger] handles_len(arms[i].0, n)
}

/// Pattern `p` is a list pattern with irrefutable heads and a rest binder.
pub open spec fn is_rest_arm(p: Pattern) -> bool {
    match list_arm(p) {
        Some((_, r)) => r,
        None => false,
    }
}

/// The number of heads of a list arm.
pub open spec fn arm_len(p: Pattern) -> nat {
    match list_arm(p) {
        Some((h, _)) => h,
        None => 0,
    }
}

/// Every length from `b` on is handled.
pub open spec fn handled_from(arms: Seq<(Pattern, Expr)>, b: nat) -> bool {
    forall|n: nat| b <= n ==> #[trigger] len_handled(arms, n)
}

/// The lengths below `k` that no arm handles, increasing.
pub open spec fn unhandled_below(arms: Seq<(Pattern, Expr)>, k: nat) -> Seq<nat>
    decreases k,
{
    if k == 0 {
        seq![]
    } else {
        let r = unhandled_below(arms, (k - 1) as nat);
        if len_handled(arms, (k - 1) as nat) {
            r
        } else {
            r.push((k - 1) as nat)
        }
    }
}

/// How missing lengths are reported: nothing when there are none.
pub open spec fn lens_report(u: Seq<nat>) -> Option<Seq<char>> {
    if u.len() == 0 {
        None
    } else {
        Some(join(len_phrases(u), ", "@))
    }
}

proof fn lemma_min_rest(arms: Seq<(Pattern, Expr)>)
    ensures
        min_rest(arms) is None ==> forall|i: int| 0 <= i < arms.len() ==> !is_rest_arm(#[trigger] arms[i].0),
        min_rest(arms) is Some ==> (exists|i: int|
            0 <= i < arms.len() && #[trigger] list_arm(arms[i].0) == Some((min_rest(arms)->0, true))),
        min_rest(arms) is Some ==> forall|i: int|
            0 <= i < arms.len() && is_rest_arm(#[trigger] arms[i].0) ==> min_rest(arms)->0 <= arm_len(arms[i].0),
    decreases arms.len(),
{
    if arms.len() > 0 {
        let init = arms.drop_last();
        lemma_min_rest(init);
        let last = arms.len() - 1;
        let lp = arms[last].0;
        assert(arms.last() == arms[last]);
        let mi = min_rest(init);
        let ma = min_rest(arms);
        assert forall|i: int| 0 <= i < last implies #[trigger] arms[i] == init[i] by {}
        if is_rest_arm(lp) {
            let h = arm_len(lp);
            assert(list_arm(lp) == Some((h, true)));
            match mi {
                Some(x) => {
                    assert(ma == Some(if h < x { h } else { x }));
                    if h >= x {
                        let i = choose|i: int| 0 <= i < init.len() && #[trigger] list_arm(init[i].0) == Some((x, true));
                        assert(arms[i] == init[i]);
                        assert(list_arm(arms[i].0) == Some((ma->0, true)));
                    } else {
                        assert(list_arm(arms[last].0) == Some((ma->0, true)));
                    }
                    assert forall|i: int| 0 <= i < arms.len() && is_rest_arm(#[trigger] arms[i].0) implies ma->0 <= arm_len(arms[i].0) by {
                        if i < last {
                            assert(arms[i] == init[i]);
                        }
                    }
                },
                None => {
                    assert(ma == Some(h));
                    assert(list_arm(arms[last].0) == Some((ma->0, true)));
                    assert forall|i: int| 0 <= i < arms.len() && is_rest_arm(#[trigger] arms[i].0) implies ma->0 <= arm_len(arms[i].0) by {
                        if i < last {
                            assert(arms[i] == init[i]);
                            assert(!is_rest_arm(init[i].0));
                        }
                    }
                },
            }
        } else {
            assert(ma == mi);
            assert forall|i: int| 0 <= i < arms.len() && is_rest_arm(#[trigger] arms[i].0) implies (ma is Some && ma->0 <= arm_len(arms[i].0)) by {
                assert(i < last);
                assert(arms[i] == init[i]);
            }
            if mi is Some {
                let i = choose|i: int| 0 <= i < init.len() && #[trigger] list_arm(init[i].0) == Some((mi->0, true));
                assert(arms[i] == init[i]);
                assert(list_arm(arms[i].0) == Some((ma->0, true)));
            }
        }
    }
}

proof fn lemma_exact_lens(arms: Seq<(Pattern, Expr)>, n: nat)
    ensures
        exact_lens(arms).contains(n) <==> exists|i: int|
            0 <= i < arms.len() && #[trigger] list_arm(arms[i].0) == Some((n, false)),
    decreases arms.len(),
{
    if arms.len() > 0 {
        let init = arms.drop_last();
        lemma_exact_lens(init, n);
        let last = arms.len() - 1;
        assert(arms[last] == arms.last());
        if exact_lens(arms).contains(n) {
            if exact_lens(init).contains(n) {
                let i = choose|i: int| 0 <= i < init.len() && #[trigger] list_arm(init[i].0) == Some((n, false));
                assert(init[i] == arms[i]);
            } else {
                let e = exact_lens(init);
                let j = choose|j: int| 0 <= j < exact_lens(arms).len() && exact_lens(arms)[j] == n;
                assert(list_arm(arms[last].0) == Some((n, false)));
            }
        }
        if exists|i: int| 0 <= i < arms.len() && #[trigger] list_arm(arms[i].0) == Some((n, false)) {
            let i = choose|i: int| 0 <= i < arms.len() && #[trigger] list_arm(arms[i].0) == Some((n, false));
            if i < last {
                assert(init[i] == arms[i]);
                assert(list_arm(init[i].0) == Some((n, false)));
                let e = exact_lens(init);
                let j = choose|j: int| 0 <= j < e.len() && e[j] == n;
                assert(exact_lens(arms)[j] == n);
            } else {
                assert(exact_lens(arms) == exact_lens(init).push(n));
                assert(exact_lens(arms)[exact_lens(init).len() as int] == n);
            }
        }
    }
}

proof fn lemma_handled_below_min(arms: Seq<(Pattern, Expr)>, n: nat)
    requires
        min_rest(arms) is Some,
    ensures
        n < min_rest(arms)->0 ==> (len_handled(arms, n) <==> exact_lens(arms).contains(n)),
        n >= min_rest(arms)->0 ==> len_handled(arms, n),
{
    lemma_min_rest(arms);
    lemma_exact_lens(arms, n);
    let m = min_rest(arms)->0;
    if n >= m {
        let i = choose|i: int| 0 <= i < arms.len() && #[trigger] list_arm(arms[i].0) == Some((m, true));
        assert(handles_len(arms[i].0, n));
    } else {
        if len_handled(arms, n) {
            let i = choose|i: int| 0 <= i < arms.len() && #[trigger] handles_len(arms[i].0, n);
            if is_rest_arm(arms[i].0) {
                assert(m <= arm_len(arms[i].0));
            }
            assert(list_arm(arms[i].0) == Some((n, false)));
        }
        if exact_lens(arms).contains(n) {
            let i = choose|i: int| 0 <= i < arms.len() && #[trigger] list_arm(arms[i].0) == Some((n, false));
            assert(handles_len(arms[i].0, n));
        }
    }
}

proof fn lemma_lens_missing_unhandled(arms: Seq<(Pattern, Expr)>, k: nat)
    requires
        min_rest(arms) is Some,
        k <= min_rest(arms)->0,
    ensures
        lens_missing(k, exact_lens(arms)) == unhandled_below(arms, k),
    decreases k,
{
    if k > 0 {
        lemma_lens_missing_unhandled(arms, (k - 1) as nat);
        lemma_handled_below_min(arms, (k - 1) as nat);
    }
}

proof fn lemma_unhandled_stable(arms: Seq<(Pattern, Expr)>, a: nat, b: nat)
    requires
        a <= b,
        forall|n: nat| a <= n < b ==> len_handled(arms, n),
    ensures
        unhandled_below(arms, b) == unhandled_below(arms, a),
    decreases b,
{
    if a < b {
        lemma_unhandled_stable(arms, a, (b - 1) as nat);
        assert(len_handled(arms, (b - 1) as nat));
    }
}

/// A match on a List misses exactly the lengths no arm handles. With a rest
/// arm, every length from some bound on is handled, and the report names
/// precisely the unhandled lengths below any such bound, in increasing
/// order (nothing at all when every length is handled); without one,
/// longer lists are reported missing.
pub proof fn lemma_list_missing_exact(arms: Seq<(Pattern, Expr)>, k: nat)
    ensures
        (exists|i: int| 0 <= i < arms.len() && is_rest_arm(#[trigger] arms[i].0)) ==> exists|b: nat|
            #[trigger] handled_from(arms, b),
        (exists|i: int| 0 <= i < arms.len() && is_rest_arm(#[trigger] arms[i].0)) && handled_from(arms, k)
            ==> list_missing(arms) == lens_report(unhandled_below(arms, k)),
        !(exists|i: int| 0 <= i < arms.len() && is_rest_arm(#[trigger] arms[i].0)) ==> list_missing(arms) is Some,
{
    lemma_min_rest(arms);
    if min_rest(arms) is Some {
        let m = min_rest(arms)->0;
        assert forall|n: nat| m <= n implies #[trigger] len_handled(arms, n) by {
            lemma_handled_below_min(arms, n);
        }
        assert(handled_from(arms, m));
        lemma_lens_missing_unhandled(arms, m);
        if handled_from(arms, k) {
            if k <= m {
                lemma_unhandled_stable(arms, k, m);
            } else {
                lemma_unhandled_stable(arms, m, k);
            }
        }
    } else {
        if exists|i: int| 0 <= i < arms.len() && is_rest_arm(#[trigger] arms[i].0) {
            let i = choose|i: int| 0 <= i < arms.len() && is_rest_arm(#[trigger] arms[i].0);
            assert(!is_rest_arm(arms[i].0));
        }
    }
}

// ---------- the whole check ----------

pub open spec fn ctor_names(cs: Seq<(String, Vec<Ty>)>) -> Seq<Seq<char>> {
    cs.map_values(|c: (String, Vec<Ty>)| c.0@)
}

/// The constructor names of the first variant type named `name`.
pub open spec fn variant_lookup(vs: Seq<(String, Vec<(String, Vec<Ty>)>)>, name: Seq<char>) -> Option<Seq<Seq<char>>>
    decreases vs.len(),
{
    if vs.len() == 0 {
        None
    } else if vs[0].0@ == name {
        Some(ctor_names(vs[0].1@))
    } else {
        variant_lookup(vs.drop_first(), name)
    }
}

/// What a match with `arms` on a value of (resolved) type `t` leaves
/// unhandled, given the variant types `vs`; `None` when it is exhaustive or
/// the type is unknown.
pub open spec fn missing_spec(
    vs: Seq<(String, Vec<(String, Vec<Ty>)>)>,
    t: TyV,
    arms: Seq<(Pattern, Expr)>,
) -> Option<Seq<char>> {
    if exists|k: int| 0 <= k < arms.len() && irrefutable_spec(#[trigger] arms[k].0) {
        None
    } else {
        match t {
            TyV::Named(n) => match variant_lookup(vs, n) {
                Some(needed) => missing_of_spec(needed, covered_spec(arms)),
                None => None,
            },
            TyV::Opt(_) => missing_of_spec(seq!["Some"@, "None"@], covered_spec(arms)),
            TyV::Res(_, _) => missing_of_spec(seq!["Ok"@, "Err"@], covered_spec(arms)),
            TyV::Bool => bool_missing(has_bool_arm(arms, true), has_bool_arm(arms, false)),
            TyV::List(_) => list_missing(arms),
            TyV::Error | TyV::Var(_) => None,
            _ => Some("add a catch-all `_` arm"@),
        }
    }
}

pub proof fn lemma_variant_lookup(vs: Seq<(String, Vec<(String, Vec<Ty>)>)>, name: Seq<char>, k: int)
    requires
        0 <= k <= vs.len(),
        forall|j: int| 0 <= j < k ==> (#[trigger] vs[j]).0@ != name,
    ensures
        k < vs.len() && vs[k].0@ == name ==> variant_lookup(vs, name) == Some(ctor_names(vs[k].1@)),
        k == vs.len() ==> variant_lookup(vs, name) is None,
    decreases k,
{
    if k > 0 {
        assert(vs[0].0@ != name);
        lemma_variant_lookup(vs.drop_first(), name, k - 1);
        assert forall|j: int| 0 <= j < k - 1 implies (#[trigger] vs.drop_first()[j]).0@ != name by {
            assert(vs.drop_first()[j] == vs[j + 1]);
        }
    }
}

/// The diagnostic for a match at `span` that leaves `missing` unhandled.
pub open spec fn nonexhaustive_diag(d: Diag, missing: Seq<char>, span: Span) -> bool {
    &&& d.rule@ == "W24"@
    &&& d.message@ == "match is not exhaustive"@
    &&& d.span == span
    &&& d.expected is None
    &&& d.actual is None
    &&& opt_seq(d.hint) == Some("unhandled: "@ + missing)
}

impl<'a> Checker<'a> {
    /// Report a match at `span` on `scrut` with `arms` if it leaves cases
    /// unhandled: exactly one diagnostic naming them, or none.
    pub fn check_exhaustive(&mut self, scrut: &Ty, arms: &Vec<(Pattern, Expr)>, span: Span)
        ensures
            final(self).infer_post(old(self)),
            final(self).vars == old(self).vars,
            final(self).holes == old(self).holes,
            match missing_spec(old(self).variants@, resolve_spec(old(self).st(), scrut@, depth()), arms@) {
                Some(m) => final(self).diags@ == old(self).diags@.push(final(self).diags@.last()) && nonexhaustive_diag(
                    final(self).diags@.last(),
                    m,
                    span,
                ),
                None => final(self).diags@ == old(self).diags@,
            },
    {
        match self.missing_cases(scrut, arms) {
            Some(missing) => {
                proof {
                    reveal_strlit("");
                    assert(crate::check::body_rule_ids().contains("W24"@));
                }
                let hint = cat3("unhandled: ", missing.as_str(), "");
                self.report(Diag::new("W24", owned("match is not exhaustive"), span).hint(hint));
            },
            None => {
                proof {
                    lemma_infer_post_refl(self);
                }
            },
        }
    }

    /// What a match leaves unhandled, or `None` when it is exhaustive (or
    /// the scrutinee's type is unknown).
    pub fn missing_cases(&self, scrut: &Ty, arms: &Vec<(Pattern, Expr)>) -> (r: Option<String>)
        ensures
            opt_seq(r) == missing_spec(self.variants@, resolve_spec(self.st(), scrut@, depth()), arms@),
    {
        let mut k: usize = 0;
        while k < arms.len()
            invariant
                k <= arms@.len(),
                forall|j: int| 0 <= j < k ==> !irrefutable_spec(#[trigger] arms@[j].0),
            decreases arms.len() - k,
        {
            if irrefutable(&arms[k].0) {
                return None;
            }
            k += 1;
        }
        proof {
            reveal_strlit("Some");
            reveal_strlit("None");
            reveal_strlit("Ok");
            reveal_strlit("Err");
        }
        match self.resolve(scrut) {
            Ty::Named(tyname) => {
                match find_key(&self.variants, tyname.as_str()) {
                    Some(vk) => {
                        let ctors = &self.variants[vk].1;
                        let mut needed: Vec<String> = Vec::new();
                        let mut i: usize = 0;
                        while i < ctors.len()
                            invariant
                                i <= ctors@.len(),
                                strs_view(needed@) == ctor_names(ctors@.subrange(0, i as int)),
                            decreases ctors.len() - i,
                        {
                            let c = copy_string(&ctors[i].0);
                            proof {
                                assert(strs_view(needed@.push(c)) =~= strs_view(needed@).push(c@));
                                assert(ctor_names(ctors@.subrange(0, i + 1)) =~= ctor_names(
                                    ctors@.subrange(0, i as int),
                                ).push(ctors@[i as int].0@));
                            }
                            needed.push(c);
                            i += 1;
                        }
                        proof {
                            assert(ctors@.subrange(0, ctors@.len() as int) =~= ctors@);
                            lemma_variant_lookup(self.variants@, tyname@, vk as int);
                        }
                        missing_of(&needed, &covered_ctors(arms))
                    },
                    None => {
                        proof {
                            lemma_variant_lookup(self.variants@, tyname@, self.variants@.len() as int);
                        }
                        None
                    },
                }
            },
            Ty::Opt(_) => {
                let needed = vec![owned("Some"), owned("None")];
                proof {
                    assert(strs_view(needed@) =~= seq!["Some"@, "None"@]);
                }
                missing_of(&needed, &covered_ctors(arms))
            },
            Ty::Res(_, _) => {
                let needed = vec![owned("Ok"), owned("Err")];
                proof {
                    assert(strs_view(needed@) =~= seq!["Ok"@, "Err"@]);
                }
                missing_of(&needed, &covered_ctors(arms))
            },
            Ty::Bool => self.bool_cases(arms),
            Ty::List(_) => self.list_cases(arms),
            Ty::Error | Ty::Var(_) => None,
            _ => Some(owned("add a catch-all `_` arm")),
        }
    }

    /// What a match on a Bool misses.
    fn bool_cases(&self, arms: &Vec<(Pattern, Expr)>) -> (r: Option<String>)
        ensures
            opt_seq(r) == bool_missing(has_bool_arm(arms@, true), has_bool_arm(arms@, false)),
    {
        let mut t = false;
        let mut f = false;
        let mut i: usize = 0;
        while i < arms.len()
            invariant
                i <= arms@.len(),
                t == exists|k: int| 0 <= k < i && (#[trigger] arms@[k]).0.kind == PatKind::LitBool(true),
                f == exists|k: int| 0 <= k < i && (#[trigger] arms@[k]).0.kind == PatKind::LitBool(false),
            decreases arms.len() - i,
        {
            match arms[i].0.kind {
                PatKind::LitBool(true) => {
                    t = true;
                },
                PatKind::LitBool(false) => {
                    f = true;
                },
                _ => {},
            }
            i += 1;
        }
        if t && f {
            None
        } else if t {
            Some(owned("false"))
        } else if f {
            Some(owned("true"))
        } else {
            Some(owned("true, false"))
        }
    }

    /// What a match on a List misses.
    fn list_cases(&self, arms: &Vec<(Pattern, Expr)>) -> (r: Option<String>)
        ensures
            opt_seq(r) == list_missing(arms@),
    {
        let mut min_rest_len: Option<usize> = None;
        let mut exact: Vec<usize> = Vec::new();
        let mut i: usize = 0;
        while i < arms.len()
            invariant
                i <= arms@.len(),
                match min_rest_len {
                    Some(m) => min_rest(arms@.subrange(0, i as int)) == Some(m as nat),
                    None => min_rest(arms@.subrange(0, i as int)) is None,
                },
                exact@.map_values(|n: usize| n as nat) == exact_lens(arms@.subrange(0, i as int)),
            decreases arms.len() - i,
        {
            proof {
                assert(arms@.subrange(0, i + 1).drop_last() =~= arms@.subrange(0, i as int));
            }
            if let PatKind::List { heads, rest } = &arms[i].0.kind {
                if all_irrefutable(heads) {
                    match rest {
                        Some(_) => {
                            min_rest_len = Some(
                                match min_rest_len {
                                    Some(m) => if heads.len() < m {
                                        heads.len()
                                    } else {
                                        m
                                    },
                                    None => heads.len(),
                                },
                            );
                        },
                        None => {
                            proof {
                                assert(exact@.push(heads.len()).map_values(|n: usize| n as nat) =~= exact@.map_values(
                                    |n: usize| n as nat,
                                ).push(heads@.len()));
                            }
                            exact.push(heads.len());
                        },
                    }
                }
            }
            i += 1;
        }
        proof {
            assert(arms@.subrange(0, arms@.len() as int) =~= arms@);
            reveal_strlit(", ");
            reveal_strlit("lists of length ");
        }
        let ghost ev = exact@.map_values(|n: usize| n as nat);
        match min_rest_len {
            Some(k) => {
                let mut s = String::new();
                let mut any = false;
                let mut n: usize = 0;
                while n < k
                    invariant
                        n <= k,
                        ev == exact@.map_values(|n: usize| n as nat),
                        s@ == join(len_phrases(lens_missing(n as nat, ev)), ", "@),
                        any == (lens_missing(n as nat, ev).len() > 0),
                    decreases k - n,
                {
                    let mut seen = false;
                    let mut j: usize = 0;
                    while j < exact.len()
                        invariant
                            j <= exact@.len(),
                            ev == exact@.map_values(|n: usize| n as nat),
                            seen == exists|x: int| 0 <= x < j && ev[x] == n as nat,
                        decreases exact.len() - j,
                    {
                        proof {
                            assert(ev[j as int] == exact@[j as int] as nat);
                        }
                        if exact[j] == n {
                            seen = true;
                        }
                        j += 1;
                    }
                    let ghost m = lens_missing(n as nat, ev);
                    proof {
                        assert(seen == ev.contains(n as nat));
                        assert(len_phrases(m.push(n as nat)) =~= len_phrases(m).push("lists of length "@ + nat_text(n as nat)));
                        lemma_join_push(len_phrases(m), ", "@, "lists of length "@ + nat_text(n as nat));
                    }
                    if !seen {
                        if any {
                            push_str(&mut s, ", ");
                        }
                        push_str(&mut s, "lists of length ");
                        let t = usize_text(n);
                        push_str(&mut s, t.as_str());
                        any = true;
                    }
                    n += 1;
                }
                if any {
                    Some(s)
                } else {
                    None
                }
            },
            None => Some(owned("longer lists (add a `[x, ..rest]` or `_` arm)")),
        }
    }
}

} // verus!
