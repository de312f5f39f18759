//! Sets and maps of names kept as sorted vectors: iteration in name order,
//! as an ordered set or map yields them.
use vstd::prelude::*;
use crate::sort::{lex_lt, lemma_lex_asym, lemma_lex_le_trans, str_lt};
use crate::text::{copy_string, str_eq};

verus! {

/// Strictly increasing names: sorted, without repeats.
pub open spec fn sorted_names(v: Seq<String>) -> bool {
    forall|i: int, j: int| 0 <= i < j < v.len() ==> lex_lt(#[trigger] v[i]@, #[trigger] v[j]@)
}

/// The set of names held.
pub open spec fn name_set(v: Seq<String>) -> Set<Seq<char>> {
    Set::new(|s: Seq<char>| exists|k: int| 0 <= k < v.len() && (#[trigger] v[k])@ == s)
}

pub proof fn lemma_lex_irrefl(a: Seq<char>)
    ensures
        !lex_lt(a, a),
{
    lemma_lex_asym(a, a);
}

/// Whether `s` is in the set.
pub fn set_contains(v: &Vec<String>, s: &str) -> (r: bool)
    ensures
        r == name_set(v@).contains(s@),
{
    let mut i: usize = 0;
    while i < v.len()
        invariant
            i <= v@.len(),
            forall|k: int| 0 <= k < i ==> (#[trigger] v@[k])@ != s@,
        decreases v.len() - i,
    {
        if str_eq(v[i].as_str(), s) {
            assert(name_set(v@).contains(s@));
            return true;
        }
        i += 1;
    }
    false
}

/// Adds a name, keeping the vector sorted and without repeats.
pub fn set_insert(v: &mut Vec<String>, s: String)
    requires
        sorted_names(old(v)@),
    ensures
        sorted_names(final(v)@),
        name_set(final(v)@) == name_set(old(v)@).insert(s@),
{
    let mut p: usize = 0;
    while p < v.len() && str_lt(v[p].as_str(), s.as_str())
        invariant
            p <= v@.len(),
            forall|k: int| 0 <= k < p ==> lex_lt(#[trigger] v@[k]@, s@),
        decreases v.len() - p,
    {
        p += 1;
    }
    if p < v.len() && str_eq(v[p].as_str(), s.as_str()) {
        assert(name_set(v@) =~= name_set(v@).insert(s@));
        return;
    }
    let ghost old_v = v@;
    let ghost sv = s@;
    v.insert(p, s);
    proof {
        assert forall|i: int, j: int| 0 <= i < j < v@.len() implies lex_lt(#[trigger] v@[i]@, #[trigger] v@[j]@) by {
            if j < p {
                assert(v@[i] == old_v[i] && v@[j] == old_v[j]);
            } else if j == p {
                assert(v@[i] == old_v[i]);
            } else if i == p {
                assert(v@[j] == old_v[j - 1]);
                assert(!lex_lt(old_v[p as int]@, sv));
                assert(old_v[p as int]@ != sv);
                crate::sort::lemma_lex_total(sv, old_v[p as int]@);
                if j - 1 > p {
                    crate::sort::lemma_lex_trans(sv, old_v[p as int]@, old_v[j - 1]@);
                }
            } else if i < p {
                assert(v@[j] == old_v[j - 1]);
                assert(v@[i] == old_v[i]);
                if j - 1 >= p {
                    assert(!lex_lt(old_v[p as int]@, sv));
                    crate::sort::lemma_lex_total(sv, old_v[p as int]@);
                    if old_v[p as int]@ == sv {
                        assert(false);
                    }
                    crate::sort::lemma_lex_trans(v@[i]@, sv, old_v[p as int]@);
                    if j - 1 > p {
                        crate::sort::lemma_lex_trans(v@[i]@, old_v[p as int]@, old_v[j - 1]@);
                    }
                }
            } else {
                assert(v@[j] == old_v[j - 1]);
                assert(v@[i] == old_v[i - 1]);
            }
        }
        assert forall|t: Seq<char>| name_set(v@).contains(t) <==> name_set(old_v).insert(sv).contains(t) by {
            if name_set(v@).contains(t) {
                let k = choose|k: int| 0 <= k < v@.len() && (#[trigger] v@[k])@ == t;
                if k < p {
                    assert(old_v[k] == v@[k]);
                } else if k > p {
                    assert(old_v[k - 1] == v@[k]);
                }
            }
            if name_set(old_v).contains(t) {
                let k = choose|k: int| 0 <= k < old_v.len() && (#[trigger] old_v[k])@ == t;
                if k < p {
                    assert(v@[k] == old_v[k]);
                } else {
                    assert(v@[k + 1] == old_v[k]);
                }
            }
            if t == sv {
                assert(v@[p as int]@ == sv);
            }
        }
        assert(name_set(v@) =~= name_set(old_v).insert(sv));
    }
}


/// The texts of names, in order.
pub open spec fn names_view(v: Seq<String>) -> Seq<Seq<char>> {
    v.map_values(|s: String| s@)
}

/// Strictly increasing texts.
pub open spec fn strictly_sorted(q: Seq<Seq<char>>) -> bool {
    forall|i: int, j: int| 0 <= i < j < q.len() ==> lex_lt(#[trigger] q[i], #[trigger] q[j])
}

/// The members of a finite set of names in increasing order.
pub open spec fn sorted_of(s: Set<Seq<char>>) -> Seq<Seq<char>> {
    choose|q: Seq<Seq<char>>| strictly_sorted(q) && q.to_set() == s
}

/// A set has at most one strictly increasing listing.
pub proof fn lemma_sorted_unique(a: Seq<Seq<char>>, b: Seq<Seq<char>>)
    requires
        strictly_sorted(a),
        strictly_sorted(b),
        a.to_set() == b.to_set(),
    ensures
        a == b,
    decreases a.len(),
{
    if a.len() == 0 {
        if b.len() > 0 {
            assert(b.to_set().contains(b[0]));
            assert(a.to_set().contains(b[0]));
            assert(false);
        }
        assert(a =~= b);
    } else {
        if b.len() == 0 {
            assert(a.to_set().contains(a[0]));
            assert(b.to_set().contains(a[0]));
            assert(false);
        }
        assert(a.to_set().contains(a[0]));
        assert(b.contains(a[0]));
        let j = choose|j: int| 0 <= j < b.len() && b[j] == a[0];
        assert(b.to_set().contains(b[0]));
        assert(a.contains(b[0]));
        let i = choose|i: int| 0 <= i < a.len() && a[i] == b[0];
        if a[0] != b[0] {
            assert(j > 0 && i > 0);
            assert(lex_lt(b[0], b[j]));
            assert(lex_lt(a[0], a[i]));
            lemma_lex_asym(a[0], b[0]);
            assert(false);
        }
        let ra = a.drop_first();
        let rb = b.drop_first();
        assert forall|i: int, j: int| 0 <= i < j < ra.len() implies lex_lt(#[trigger] ra[i], #[trigger] ra[j]) by {
            assert(ra[i] == a[i + 1] && ra[j] == a[j + 1]);
        }
        assert forall|i: int, j: int| 0 <= i < j < rb.len() implies lex_lt(#[trigger] rb[i], #[trigger] rb[j]) by {
            assert(rb[i] == b[i + 1] && rb[j] == b[j + 1]);
        }
        assert forall|x: Seq<char>| ra.to_set().contains(x) <==> rb.to_set().contains(x) by {
            if ra.to_set().contains(x) {
                assert(ra.contains(x));
                let k = choose|k: int| 0 <= k < ra.len() && ra[k] == x;
                assert(a[k + 1] == x);
                assert(lex_lt(a[0], a[k + 1]));
                lemma_lex_irrefl(x);
                assert(a.to_set().contains(x));
                assert(b.contains(x));
                let m = choose|m: int| 0 <= m < b.len() && b[m] == x;
                assert(m != 0);
                assert(rb[m - 1] == x);
                assert(rb.contains(x));
            }
            if rb.to_set().contains(x) {
                assert(rb.contains(x));
                let k = choose|k: int| 0 <= k < rb.len() && rb[k] == x;
                assert(b[k + 1] == x);
                assert(lex_lt(b[0], b[k + 1]));
                lemma_lex_irrefl(x);
                assert(b.to_set().contains(x));
                assert(a.contains(x));
                let m = choose|m: int| 0 <= m < a.len() && a[m] == x;
                assert(m != 0);
                assert(ra[m - 1] == x);
                assert(ra.contains(x));
            }
        }
        assert(ra.to_set() =~= rb.to_set());
        lemma_sorted_unique(ra, rb);
        assert(a =~= seq![a[0]] + ra);
        assert(b =~= seq![b[0]] + rb);
    }
}

/// A sorted vector of names lists exactly the sorted form of its set.
pub proof fn lemma_names_sorted_of(v: Seq<String>)
    requires
        sorted_names(v),
    ensures
        names_view(v) == sorted_of(name_set(v)),
        names_view(v).len() == v.len(),
        strictly_sorted(names_view(v)),
        names_view(v).to_set() == name_set(v),
{
    let q = names_view(v);
    assert forall|i: int, j: int| 0 <= i < j < q.len() implies lex_lt(#[trigger] q[i], #[trigger] q[j]) by {
        assert(q[i] == v[i]@ && q[j] == v[j]@);
    }
    assert forall|x: Seq<char>| q.to_set().contains(x) <==> name_set(v).contains(x) by {
        if q.to_set().contains(x) {
            assert(q.contains(x));
            let k = choose|k: int| 0 <= k < q.len() && q[k] == x;
            assert(v[k]@ == x);
        }
        if name_set(v).contains(x) {
            let k = choose|k: int| 0 <= k < v.len() && (#[trigger] v[k])@ == x;
            assert(q[k] == x);
            assert(q.contains(x));
        }
    }
    assert(q.to_set() =~= name_set(v));
    let c = sorted_of(name_set(v));
    assert(strictly_sorted(c) && c.to_set() == name_set(v));
    lemma_sorted_unique(q, c);
}

/// The owner recorded last for `c` in a list of (name, owner) pairs.
pub open spec fn owner_in(es: Seq<(Seq<char>, Seq<char>)>, c: Seq<char>) -> Option<Seq<char>>
    decreases es.len(),
{
    if es.len() == 0 {
        None
    } else if es.last().0 == c {
        Some(es.last().1)
    } else {
        owner_in(es.drop_last(), c)
    }
}

pub open spec fn pairs_view(v: Seq<(String, String)>) -> Seq<(Seq<char>, Seq<char>)> {
    v.map_values(|p: (String, String)| (p.0@, p.1@))
}

/// The owner recorded last for `c`.
pub fn owner_lookup(v: &Vec<(String, String)>, c: &str) -> (r: Option<String>)
    ensures
        match (r, owner_in(pairs_view(v@), c@)) {
            (Some(a), Some(b)) => a@ == b,
            (None, None) => true,
            _ => false,
        },
{
    let ghost pv = pairs_view(v@);
    let mut j: usize = v.len();
    assert(pv.subrange(0, pv.len() as int) =~= pv);
    while j > 0
        invariant
            j <= v@.len(),
            pv == pairs_view(v@),
            owner_in(pv, c@) == owner_in(pv.subrange(0, j as int), c@),
        decreases j,
    {
        let ghost pre = pv.subrange(0, j as int);
        assert(pre.last() == pv[j - 1]);
        assert(pre.drop_last() =~= pv.subrange(0, j - 1));
        if str_eq(v[j - 1].0.as_str(), c) {
            return Some(copy_string(&v[j - 1].1));
        }
        j -= 1;
    }
    None
}


/// Removes a name, keeping the vector sorted.
pub fn set_remove(v: &mut Vec<String>, s: &str)
    requires
        sorted_names(old(v)@),
    ensures
        sorted_names(final(v)@),
        name_set(final(v)@) == name_set(old(v)@).remove(s@),
{
    let mut p: usize = 0;
    while p < v.len()
        invariant
            p <= v@.len(),
            v@ == old(v)@,
            sorted_names(v@),
            forall|k: int| 0 <= k < p ==> (#[trigger] v@[k])@ != s@,
        decreases v.len() - p,
    {
        if str_eq(v[p].as_str(), s) {
            let ghost old_v = v@;
            v.remove(p);
            proof {
                assert forall|i: int, j: int| 0 <= i < j < v@.len() implies lex_lt(#[trigger] v@[i]@, #[trigger] v@[j]@) by {
                    if j < p {
                        assert(v@[i] == old_v[i] && v@[j] == old_v[j]);
                    } else if i < p {
                        assert(v@[i] == old_v[i] && v@[j] == old_v[j + 1]);
                    } else {
                        assert(v@[i] == old_v[i + 1] && v@[j] == old_v[j + 1]);
                    }
                }
                assert forall|t: Seq<char>| name_set(v@).contains(t) <==> name_set(old_v).remove(s@).contains(t) by {
                    if name_set(v@).contains(t) {
                        let k = choose|k: int| 0 <= k < v@.len() && (#[trigger] v@[k])@ == t;
                        if k < p {
                            assert(old_v[k] == v@[k]);
                            assert(lex_lt(old_v[k]@, old_v[p as int]@));
                            lemma_lex_irrefl(t);
                        } else {
                            assert(old_v[k + 1] == v@[k]);
                            assert(lex_lt(old_v[p as int]@, old_v[k + 1]@));
                            lemma_lex_irrefl(t);
                        }
                    }
                    if name_set(old_v).remove(s@).contains(t) {
                        let k = choose|k: int| 0 <= k < old_v.len() && (#[trigger] old_v[k])@ == t;
                        assert(k != p);
                        if k < p {
                            assert(v@[k] == old_v[k]);
                        } else {
                            assert(v@[k - 1] == old_v[k]);
                        }
                    }
                }
                assert(name_set(v@) =~= name_set(old_v).remove(s@));
            }
            return;
        }
        p += 1;
    }
    assert(name_set(v@) =~= name_set(v@).remove(s@));
}


/// The sorted form of a set is any strictly increasing listing of it.
pub proof fn lemma_sorted_of_is(q: Seq<Seq<char>>, s: Set<Seq<char>>)
    requires
        strictly_sorted(q),
        q.to_set() == s,
    ensures
        sorted_of(s) == q,
{
    let c = sorted_of(s);
    assert(strictly_sorted(c) && c.to_set() == s);
    lemma_sorted_unique(q, c);
}

/// A vector of names is empty exactly when its set is.
pub proof fn lemma_name_set_empty(v: Seq<String>)
    ensures
        (v.len() == 0) <==> (name_set(v) == Set::<Seq<char>>::empty()),
{
    if v.len() == 0 {
        assert(name_set(v) =~= Set::<Seq<char>>::empty());
    } else {
        assert(name_set(v).contains(v[0]@));
    }
}


/// The set of names of a vector, as a sorted vector.
pub fn set_of(v: &Vec<String>) -> (r: Vec<String>)
    ensures
        sorted_names(r@),
        name_set(r@) == name_set(v@),
{
    let mut r: Vec<String> = Vec::new();
    let mut j: usize = 0;
    assert(name_set(r@) =~= name_set(v@.take(0)));
    while j < v.len()
        invariant
            j <= v@.len(),
            sorted_names(r@),
            name_set(r@) == name_set(v@.take(j as int)),
        decreases v.len() - j,
    {
        set_insert(&mut r, copy_string(&v[j]));
        proof {
            assert forall|n: Seq<char>| name_set(v@.take(j + 1)).contains(n) <==> name_set(v@.take(j as int)).insert(v@[j as int]@).contains(n) by {
                if name_set(v@.take(j + 1)).contains(n) {
                    let k = choose|k: int| 0 <= k < j + 1 && (#[trigger] v@.take(j + 1)[k])@ == n;
                    if k < j {
                        assert(v@.take(j as int)[k] == v@.take(j + 1)[k]);
                    }
                }
                if name_set(v@.take(j as int)).contains(n) {
                    let k = choose|k: int| 0 <= k < j && (#[trigger] v@.take(j as int)[k])@ == n;
                    assert(v@.take(j + 1)[k] == v@.take(j as int)[k]);
                }
                if n == v@[j as int]@ {
                    assert(v@.take(j + 1)[j as int] == v@[j as int]);
                }
            }
            assert(name_set(v@.take(j + 1)) =~= name_set(v@.take(j as int)).insert(v@[j as int]@));
        }
        j += 1;
    }
    assert(v@.take(v@.len() as int) =~= v@);
    r
}

/// Adds every name of `b` to the sorted set `a`.
pub fn set_add_all(a: &mut Vec<String>, b: &Vec<String>)
    requires
        sorted_names(old(a)@),
    ensures
        sorted_names(final(a)@),
        name_set(final(a)@) == name_set(old(a)@).union(name_set(b@)),
{
    let ghost a0 = name_set(a@);
    let mut j: usize = 0;
    assert(name_set(b@.take(0)) =~= Set::<Seq<char>>::empty());
    while j < b.len()
        invariant
            j <= b@.len(),
            sorted_names(a@),
            name_set(a@) == a0.union(name_set(b@.take(j as int))),
        decreases b.len() - j,
    {
        set_insert(a, copy_string(&b[j]));
        proof {
            assert forall|n: Seq<char>| name_set(b@.take(j + 1)).contains(n) <==> name_set(b@.take(j as int)).insert(b@[j as int]@).contains(n) by {
                if name_set(b@.take(j + 1)).contains(n) {
                    let k = choose|k: int| 0 <= k < j + 1 && (#[trigger] b@.take(j + 1)[k])@ == n;
                    if k < j {
                        assert(b@.take(j as int)[k] == b@.take(j + 1)[k]);
                    }
                }
                if name_set(b@.take(j as int)).contains(n) {
                    let k = choose|k: int| 0 <= k < j && (#[trigger] b@.take(j as int)[k])@ == n;
                    assert(b@.take(j + 1)[k] == b@.take(j as int)[k]);
                }
                if n == b@[j as int]@ {
                    assert(b@.take(j + 1)[j as int] == b@[j as int]);
                }
            }
            assert(name_set(b@.take(j + 1)) =~= name_set(b@.take(j as int)).insert(b@[j as int]@));
            assert(name_set(a@) =~= a0.union(name_set(b@.take(j + 1))));
        }
        j += 1;
    }
    assert(b@.take(b@.len() as int) =~= b@);
}

/// Whether two vectors of names share a name.
pub fn any_shared(a: &Vec<String>, b: &Vec<String>) -> (r: bool)
    ensures
        r == exists|w: Seq<char>| name_set(a@).contains(w) && name_set(b@).contains(w),
{
    let mut j: usize = 0;
    while j < a.len()
        invariant
            j <= a@.len(),
            forall|k: int| 0 <= k < j ==> !name_set(b@).contains((#[trigger] a@[k])@),
        decreases a.len() - j,
    {
        if set_contains(b, a[j].as_str()) {
            assert(name_set(a@).contains(a@[j as int]@));
            return true;
        }
        j += 1;
    }
    proof {
        if exists|w: Seq<char>| name_set(a@).contains(w) && name_set(b@).contains(w) {
            let w = choose|w: Seq<char>| name_set(a@).contains(w) && name_set(b@).contains(w);
            let k = choose|k: int| 0 <= k < a@.len() && (#[trigger] a@[k])@ == w;
            assert(!name_set(b@).contains(a@[k]@));
        }
    }
    false
}


/// Texts in non-decreasing order.
pub open spec fn sorted_seq(q: Seq<Seq<char>>) -> bool {
    forall|i: int, j: int| 0 <= i < j < q.len() ==> !lex_lt(#[trigger] q[j], #[trigger] q[i])
}

/// Sorts names (`Vec::sort` on strings): the same names in order.
pub fn sort_strings(v: Vec<String>) -> (r: Vec<String>)
    ensures
        names_view(r@).to_multiset() == names_view(v@).to_multiset(),
        r@.len() == v@.len(),
        sorted_seq(names_view(r@)),
{
    broadcast use vstd::seq_lib::group_to_multiset_ensures, vstd::multiset::group_multiset_axioms;
    let mut v = v;
    let ghost orig = names_view(v@);
    let mut out: Vec<String> = Vec::new();
    assert(names_view(out@).to_multiset() =~= vstd::multiset::Multiset::empty());
    assert(names_view(v@).to_multiset().add(names_view(out@).to_multiset()) =~= orig.to_multiset());
    while v.len() > 0
        invariant
            sorted_seq(names_view(out@)),
            names_view(v@).to_multiset().add(names_view(out@).to_multiset()) == orig.to_multiset(),
            v@.len() + out@.len() == orig.len(),
        decreases v.len(),
    {
        let ghost before = names_view(v@);
        let x = v.pop().unwrap();
        proof {
            assert(before =~= names_view(v@).push(x@));
        }
        let mut p: usize = 0;
        while p < out.len() && str_lt(out[p].as_str(), x.as_str())
            invariant
                p <= out@.len(),
                forall|k: int| 0 <= k < p ==> lex_lt(#[trigger] out@[k]@, x@),
            decreases out.len() - p,
        {
            p += 1;
        }
        let ghost old_out = names_view(out@);
        let ghost xv = x@;
        out.insert(p, x);
        proof {
            let no = names_view(out@);
            assert(no =~= old_out.insert(p as int, xv));
            assert forall|i: int, j: int| 0 <= i < j < no.len() implies !lex_lt(#[trigger] no[j], #[trigger] no[i]) by {
                if j < p {
                    assert(no[i] == old_out[i] && no[j] == old_out[j]);
                } else if j == p {
                    assert(no[i] == old_out[i]);
                    assert(lex_lt(out@[i]@, xv));
                    lemma_lex_asym(no[i], xv);
                } else if i == p {
                    assert(no[j] == old_out[j - 1]);
                    assert(!lex_lt(old_out[p as int], xv));
                    if j - 1 > p {
                        assert(!lex_lt(old_out[j - 1], old_out[p as int]));
                        lemma_lex_le_trans(xv, old_out[p as int], old_out[j - 1]);
                    }
                } else if i < p {
                    assert(no[j] == old_out[j - 1]);
                    assert(no[i] == old_out[i]);
                } else {
                    assert(no[j] == old_out[j - 1]);
                    assert(no[i] == old_out[i - 1]);
                }
            }
            vstd::seq_lib::to_multiset_insert(old_out, p as int, xv);
            vstd::seq_lib::to_multiset_build(names_view(v@), xv);
            assert(no.to_multiset() =~= old_out.to_multiset().insert(xv));
            assert(before.to_multiset() =~= names_view(v@).to_multiset().insert(xv));
            assert(names_view(v@).to_multiset().add(no.to_multiset()) =~= orig.to_multiset());
        }
    }
    proof {
        assert(names_view(v@) =~= Seq::<Seq<char>>::empty());
        assert(names_view(v@).to_multiset().len() == 0);
        assert(names_view(v@).to_multiset() =~= vstd::multiset::Multiset::empty());
        assert(names_view(out@).to_multiset() =~= orig.to_multiset());
    }
    out
}

} // verus!
