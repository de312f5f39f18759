//! Ordering of names (code-point lexicographic, as `String`'s `Ord`) and a
//! stable sort of named entries.
use vstd::prelude::*;
use crate::text::chars_of;

verus! {

/// `a` sorts strictly before `b`, comparing code points left to right; a
/// proper prefix sorts first.
pub open spec fn lex_lt(a: Seq<char>, b: Seq<char>) -> bool
    decreases a.len(),
{
    if b.len() == 0 {
        false
    } else if a.len() == 0 {
        true
    } else if (a[0] as u32) != (b[0] as u32) {
        (a[0] as u32) < (b[0] as u32)
    } else {
        lex_lt(a.drop_first(), b.drop_first())
    }
}

/// Ordering is transitive in its non-strict form.
pub proof fn lemma_lex_le_trans(a: Seq<char>, b: Seq<char>, c: Seq<char>)
    requires
        !lex_lt(b, a),
        !lex_lt(c, b),
    ensures
        !lex_lt(c, a),
    decreases a.len(),
{
    if a.len() > 0 && b.len() > 0 && c.len() > 0 {
        if (a[0] as u32) == (b[0] as u32) && (b[0] as u32) == (c[0] as u32) {
            lemma_lex_le_trans(a.drop_first(), b.drop_first(), c.drop_first());
        }
    }
}

/// Strict ordering is asymmetric.
pub proof fn lemma_lex_asym(a: Seq<char>, b: Seq<char>)
    ensures
        lex_lt(a, b) ==> !lex_lt(b, a),
    decreases a.len(),
{
    if a.len() > 0 && b.len() > 0 && (a[0] as u32) == (b[0] as u32) {
        lemma_lex_asym(a.drop_first(), b.drop_first());
    }
}

/// Strict ordering is transitive.
pub proof fn lemma_lex_trans(a: Seq<char>, b: Seq<char>, c: Seq<char>)
    requires
        lex_lt(a, b),
        lex_lt(b, c),
    ensures
        lex_lt(a, c),
    decreases a.len(),
{
    if a.len() > 0 && b.len() > 0 && c.len() > 0 && (a[0] as u32) == (b[0] as u32) && (b[0] as u32) == (c[0] as u32) {
        lemma_lex_trans(a.drop_first(), b.drop_first(), c.drop_first());
    }
}

/// Distinct sequences are ordered one way or the other.
pub proof fn lemma_lex_total(a: Seq<char>, b: Seq<char>)
    ensures
        a != b ==> lex_lt(a, b) || lex_lt(b, a),
    decreases a.len(),
{
    if a.len() > 0 && b.len() > 0 && (a[0] as u32) == (b[0] as u32) {
        lemma_lex_total(a.drop_first(), b.drop_first());
        if a != b {
            vstd::utf8::char_u32_cast(a[0], a[0] as u32);
            vstd::utf8::char_u32_cast(b[0], b[0] as u32);
            assert(a[0] == b[0]);
            if a.drop_first() == b.drop_first() {
                assert(a =~= seq![a[0]] + a.drop_first());
                assert(b =~= seq![b[0]] + b.drop_first());
            }
        }
    } else if a.len() == 0 && b.len() == 0 {
        assert(a =~= b);
    }
}

pub fn str_lt(a: &str, b: &str) -> (r: bool)
    ensures
        r == lex_lt(a@, b@),
{
    let x = chars_of(a);
    let y = chars_of(b);
    let mut i: usize = 0;
    assert(x@.skip(0) =~= x@);
    assert(y@.skip(0) =~= y@);
    while i < x.len() && i < y.len() && (x[i] as u32) == (y[i] as u32)
        invariant
            i <= x@.len(),
            i <= y@.len(),
            lex_lt(a@, b@) == lex_lt(x@.skip(i as int), y@.skip(i as int)),
            x@ == a@,
            y@ == b@,
        decreases x.len() - i,
    {
        assert(x@.skip(i as int).drop_first() =~= x@.skip(i + 1));
        assert(y@.skip(i as int).drop_first() =~= y@.skip(i + 1));
        i += 1;
    }
    if i >= y.len() {
        false
    } else if i >= x.len() {
        true
    } else {
        (x[i] as u32) < (y[i] as u32)
    }
}

/// Entries ordered by name, never a later name before an earlier one.
pub open spec fn sorted_by_name<T>(s: Seq<(String, T)>) -> bool {
    forall|i: int, j: int| 0 <= i < j < s.len() ==> !lex_lt(#[trigger] s[j].0@, #[trigger] s[i].0@)
}

/// Whether an entry is named `n`.
pub open spec fn named<T>(n: Seq<char>) -> spec_fn((String, T)) -> bool {
    |e: (String, T)| e.0@ == n
}

/// The entries of `s` named `n`, in their order in `s`.
pub open spec fn with_name<T>(s: Seq<(String, T)>, n: Seq<char>) -> Seq<(String, T)> {
    s.filter(named(n))
}

/// Inserting `x` where everything before it sorts strictly before it puts
/// `x` first among the entries of its name.
proof fn lemma_insert_with_name<T>(s: Seq<(String, T)>, p: int, x: (String, T), n: Seq<char>)
    requires
        0 <= p <= s.len(),
        forall|k: int| 0 <= k < p ==> lex_lt(#[trigger] s[k].0@, x.0@),
    ensures
        with_name(s.insert(p, x), n) == if x.0@ == n {
            seq![x] + with_name(s, n)
        } else {
            with_name(s, n)
        },
{
    let pred = named::<T>(n);
    let a = s.subrange(0, p);
    let b = s.subrange(p, s.len() as int);
    assert(s =~= a + b);
    assert(s.insert(p, x) =~= a + (seq![x] + b));
    Seq::filter_distributes_over_add(a, b, pred);
    Seq::filter_distributes_over_add(a, seq![x] + b, pred);
    b.lemma_filter_prepend(x, pred);
    if x.0@ == n {
        assert forall|k: int| 0 <= k < a.len() implies !pred(#[trigger] a[k]) by {
            lemma_lex_asym(a[k].0@, x.0@);
        }
        a.lemma_all_neg_filter_empty(pred);
        assert(a.filter(pred) =~= Seq::<(String, T)>::empty());
        assert(with_name(s.insert(p, x), n) =~= seq![x] + with_name(s, n));
    } else {
        assert(with_name(s.insert(p, x), n) =~= with_name(s, n));
    }
}

/// Stable sort of named entries by name: the same entries, in name order,
/// entries with equal names in their original order.
pub fn sort_by_name<T>(v: Vec<(String, T)>) -> (r: Vec<(String, T)>)
    ensures
        r@.to_multiset() == v@.to_multiset(),
        r@.len() == v@.len(),
        sorted_by_name(r@),
        forall|n: Seq<char>| #[trigger] with_name(r@, n) == with_name(v@, n),
{
    broadcast use vstd::seq_lib::group_to_multiset_ensures, vstd::multiset::group_multiset_axioms;
    let mut v = v;
    let ghost orig = v@;
    let mut out: Vec<(String, T)> = Vec::new();
    assert(out@.to_multiset() =~= vstd::multiset::Multiset::empty());
    assert(v@.to_multiset().add(out@.to_multiset()) =~= orig.to_multiset());
    proof {
        assert forall|n: Seq<char>| #[trigger] with_name(out@, n) == with_name(orig.subrange(v@.len() as int, orig.len() as int), n) by {
            assert(out@ =~= Seq::<(String, T)>::empty());
            assert(orig.subrange(v@.len() as int, orig.len() as int) =~= Seq::<(String, T)>::empty());
            assert(with_name(out@, n) =~= Seq::<(String, T)>::empty());
            assert(with_name(orig.subrange(v@.len() as int, orig.len() as int), n) =~= Seq::<(String, T)>::empty());
        }
    }
    while v.len() > 0
        invariant
            sorted_by_name(out@),
            v@.to_multiset().add(out@.to_multiset()) == orig.to_multiset(),
            v@.len() + out@.len() == orig.len(),
            v@ == orig.subrange(0, v@.len() as int),
            forall|n: Seq<char>| #[trigger] with_name(out@, n) == with_name(orig.subrange(v@.len() as int, orig.len() as int), n),
        decreases v.len(),
    {
        let ghost before = v@;
        let x = v.pop().unwrap();
        proof {
            assert(before =~= v@.push(x));
        }
        let mut p: usize = 0;
        while p < out.len() && str_lt(out[p].0.as_str(), x.0.as_str())
            invariant
                p <= out@.len(),
                forall|k: int| 0 <= k < p ==> lex_lt(#[trigger] out@[k].0@, x.0@),
            decreases out.len() - p,
        {
            p += 1;
        }
        let ghost old_out = out@;
        out.insert(p, x);
        proof {
            assert forall|i: int, j: int| 0 <= i < j < out@.len() implies !lex_lt(
                #[trigger] out@[j].0@,
                #[trigger] out@[i].0@,
            ) by {
                if j < p {
                    assert(out@[i] == old_out[i] && out@[j] == old_out[j]);
                } else if j == p {
                    lemma_lex_asym(out@[i].0@, x.0@);
                } else if i == p {
                    assert(out@[j] == old_out[j - 1]);
                    assert(!lex_lt(old_out[p as int].0@, x.0@));
                    if j - 1 > p {
                        assert(!lex_lt(old_out[j - 1].0@, old_out[p as int].0@));
                        lemma_lex_le_trans(x.0@, old_out[p as int].0@, old_out[j - 1].0@);
                    }
                } else if i < p {
                    assert(out@[j] == old_out[j - 1]);
                    assert(out@[i] == old_out[i]);
                } else {
                    assert(out@[j] == old_out[j - 1]);
                    assert(out@[i] == old_out[i - 1]);
                }
            }
            vstd::seq_lib::to_multiset_insert(old_out, p as int, x);
            vstd::seq_lib::to_multiset_build(v@, x);
            assert(out@.to_multiset() =~= old_out.to_multiset().insert(x));
            assert(before.to_multiset() =~= v@.to_multiset().insert(x));
            assert(v@.to_multiset().add(out@.to_multiset()) =~= orig.to_multiset());
            assert(v@ =~= orig.subrange(0, v@.len() as int));
            let suffix = orig.subrange(v@.len() as int + 1, orig.len() as int);
            assert(orig.subrange(v@.len() as int, orig.len() as int) =~= seq![x] + suffix);
            assert forall|n: Seq<char>| #[trigger] with_name(out@, n) == with_name(orig.subrange(v@.len() as int, orig.len() as int), n) by {
                lemma_insert_with_name(old_out, p as int, x, n);
                suffix.lemma_filter_prepend(x, named::<T>(n));
            }
        }
    }
    proof {
        assert(v@ =~= Seq::<(String, T)>::empty());
        assert(v@.to_multiset().len() == 0);
        assert(v@.to_multiset() =~= vstd::multiset::Multiset::empty());
        assert(out@.to_multiset() =~= orig.to_multiset());
        assert(orig.subrange(0, orig.len() as int) =~= orig);
    }
    out
}

} // verus!
