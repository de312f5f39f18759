//! Internal types of the typechecker, their mathematical view, and the
//! substitution store of unification variables.
use vstd::prelude::*;
use crate::text::{copy_string, push_char, push_str, str_eq, owned};

verus! {

/// A type as the checker sees it.
#[derive(Debug)]
pub enum Ty {
    Int,
    Float,
    Bool,
    Text,
    Unit,
    List(Box<Ty>),
    Opt(Box<Ty>),
    Res(Box<Ty>, Box<Ty>),
    Rec(Vec<(String, Ty)>),
    Fn(Vec<Ty>, Box<Ty>),
    /// user variant or nominal record type
    Named(String),
    /// capability
    Cap(String),
    /// rigid type parameter inside a generic def body
    Rigid(String),
    /// unification variable
    Var(usize),
    /// poison type after an error; unifies with anything to stop cascades
    Error,
}

/// The mathematical content of a type: names as character sequences.
pub enum TyV {
    Int,
    Float,
    Bool,
    Text,
    Unit,
    List(Box<TyV>),
    Opt(Box<TyV>),
    Res(Box<TyV>, Box<TyV>),
    Rec(Seq<(Seq<char>, TyV)>),
    Fn(Seq<TyV>, Box<TyV>),
    Named(Seq<char>),
    Cap(Seq<char>),
    Rigid(Seq<char>),
    Var(nat),
    Error,
}

pub open spec fn ty_view(t: Ty) -> TyV
    decreases t, 1nat,
{
    match t {
        Ty::Int => TyV::Int,
        Ty::Float => TyV::Float,
        Ty::Bool => TyV::Bool,
        Ty::Text => TyV::Text,
        Ty::Unit => TyV::Unit,
        Ty::List(x) => TyV::List(Box::new(ty_view(*x))),
        Ty::Opt(x) => TyV::Opt(Box::new(ty_view(*x))),
        Ty::Res(a, b) => TyV::Res(Box::new(ty_view(*a)), Box::new(ty_view(*b))),
        Ty::Rec(fs) => TyV::Rec(fields_view(fs@)),
        Ty::Fn(args, r) => TyV::Fn(tys_view(args@), Box::new(ty_view(*r))),
        Ty::Named(n) => TyV::Named(n@),
        Ty::Cap(n) => TyV::Cap(n@),
        Ty::Rigid(n) => TyV::Rigid(n@),
        Ty::Var(i) => TyV::Var(i as nat),
        Ty::Error => TyV::Error,
    }
}

pub open spec fn tys_view(s: Seq<Ty>) -> Seq<TyV>
    decreases s, 0nat,
{
    if s.len() == 0 {
        seq![]
    } else {
        seq![ty_view(s[0])] + tys_view(s.subrange(1, s.len() as int))
    }
}

pub open spec fn fields_view(s: Seq<(String, Ty)>) -> Seq<(Seq<char>, TyV)>
    decreases s, 0nat,
{
    if s.len() == 0 {
        seq![]
    } else {
        seq![(s[0].0@, ty_view(s[0].1))] + fields_view(s.subrange(1, s.len() as int))
    }
}

impl View for Ty {
    type V = TyV;

    open spec fn view(&self) -> TyV {
        ty_view(*self)
    }
}

pub proof fn lemma_tys_view(s: Seq<Ty>)
    ensures
        tys_view(s).len() == s.len(),
        forall|k: int| 0 <= k < s.len() ==> #[trigger] tys_view(s)[k] == ty_view(s[k]),
    decreases s.len(),
{
    if s.len() > 0 {
        lemma_tys_view(s.subrange(1, s.len() as int));
        assert forall|k: int| 0 <= k < s.len() implies #[trigger] tys_view(s)[k] == ty_view(s[k]) by {
            if k > 0 {
                assert(s.subrange(1, s.len() as int)[k - 1] == s[k]);
            }
        }
    }
}

pub proof fn lemma_fields_view(s: Seq<(String, Ty)>)
    ensures
        fields_view(s).len() == s.len(),
        forall|k: int|
            0 <= k < s.len() ==> #[trigger] fields_view(s)[k] == (s[k].0@, ty_view(s[k].1)),
    decreases s.len(),
{
    if s.len() > 0 {
        lemma_fields_view(s.subrange(1, s.len() as int));
        assert forall|k: int| 0 <= k < s.len() implies #[trigger] fields_view(s)[k] == (
            s[k].0@,
            ty_view(s[k].1),
        ) by {
            if k > 0 {
                assert(s.subrange(1, s.len() as int)[k - 1] == s[k]);
            }
        }
    }
}

/// Two type sequences with elementwise equal views have equal views.
pub proof fn lemma_tys_view_ext(a: Seq<Ty>, b: Seq<Ty>)
    requires
        a.len() == b.len(),
        forall|k: int| 0 <= k < a.len() ==> ty_view(#[trigger] a[k]) == ty_view(b[k]),
    ensures
        tys_view(a) == tys_view(b),
{
    lemma_tys_view(a);
    lemma_tys_view(b);
    assert(tys_view(a) =~= tys_view(b));
}

pub proof fn lemma_fields_view_ext(a: Seq<(String, Ty)>, b: Seq<(String, Ty)>)
    requires
        a.len() == b.len(),
        forall|k: int| 0 <= k < a.len() ==> (#[trigger] a[k]).0@ == b[k].0@ && ty_view(a[k].1) == ty_view(b[k].1),
    ensures
        fields_view(a) == fields_view(b),
{
    lemma_fields_view(a);
    lemma_fields_view(b);
    assert(fields_view(a) =~= fields_view(b));
}

impl Ty {
    /// A deep copy.
    #[verifier::loop_isolation(false)]
    pub fn copy(&self) -> (r: Ty)
        ensures
            r@ == self@,
        decreases *self,
    {
        match self {
            Ty::Int => Ty::Int,
            Ty::Float => Ty::Float,
            Ty::Bool => Ty::Bool,
            Ty::Text => Ty::Text,
            Ty::Unit => Ty::Unit,
            Ty::List(x) => Ty::List(Box::new(x.copy())),
            Ty::Opt(x) => Ty::Opt(Box::new(x.copy())),
            Ty::Res(a, b) => Ty::Res(Box::new(a.copy()), Box::new(b.copy())),
            Ty::Rec(fs) => {
                let mut out: Vec<(String, Ty)> = Vec::new();
                let mut i: usize = 0;
                while i < fs.len()
                    invariant
                        i <= fs@.len(),
                        out@.len() == i,
                        forall|k: int| 0 <= k < i ==> (#[trigger] out@[k]).0@ == fs@[k].0@ && ty_view(out@[k].1)
                            == ty_view(fs@[k].1),
                    decreases fs.len() - i,
                {
                    proof {
                        assert(decreases_to!(fs => fs@));
                        assert(decreases_to!(fs@ => fs@[i as int]));
                        assert(decreases_to!(fs@[i as int] => fs@[i as int].1));
                    }
                    let t = fs[i].1.copy();
                    out.push((copy_string(&fs[i].0), t));
                    i += 1;
                }
                proof {
                    lemma_fields_view_ext(out@, fs@);
                }
                Ty::Rec(out)
            }
            Ty::Fn(args, r) => {
                let out = copy_tys(args);
                Ty::Fn(out, Box::new(r.copy()))
            }
            Ty::Named(n) => Ty::Named(copy_string(n)),
            Ty::Cap(n) => Ty::Cap(copy_string(n)),
            Ty::Rigid(n) => Ty::Rigid(copy_string(n)),
            Ty::Var(i) => Ty::Var(*i),
            Ty::Error => Ty::Error,
        }
    }
}

/// A deep copy of a type list.
pub fn copy_tys(ts: &Vec<Ty>) -> (r: Vec<Ty>)
    ensures
        r@.len() == ts@.len(),
        forall|k: int| 0 <= k < ts@.len() ==> (#[trigger] r@[k])@ == ts@[k]@,
        tys_view(r@) == tys_view(ts@),
    decreases ts@, 0nat,
{
    let mut out: Vec<Ty> = Vec::new();
    let mut i: usize = 0;
    while i < ts.len()
        invariant
            i <= ts@.len(),
            out@.len() == i,
            forall|k: int| 0 <= k < i ==> (#[trigger] out@[k])@ == ts@[k]@,
        decreases ts.len() - i,
    {
        out.push(ts[i].copy());
        i += 1;
    }
    proof {
        lemma_tys_view_ext(out@, ts@);
    }
    out
}

/// A polymorphic signature: type parameters, parameter types, result.
#[derive(Debug)]
pub struct Scheme {
    pub tparams: Vec<String>,
    pub params: Vec<Ty>,
    pub ret: Ty,
}

/// Equality is not defined on a type that contains a function or a
/// capability.
pub open spec fn has_fn_or_cap(t: TyV) -> bool
    decreases t, 1nat,
{
    match t {
        TyV::Fn(_, _) | TyV::Cap(_) => true,
        TyV::List(x) => has_fn_or_cap(*x),
        TyV::Opt(x) => has_fn_or_cap(*x),
        TyV::Res(a, b) => has_fn_or_cap(*a) || has_fn_or_cap(*b),
        TyV::Rec(fs) => fields_fn_or_cap(fs),
        _ => false,
    }
}

pub open spec fn fields_fn_or_cap(fs: Seq<(Seq<char>, TyV)>) -> bool
    decreases fs, 0nat,
{
    if fs.len() == 0 {
        false
    } else {
        has_fn_or_cap(fs[0].1) || fields_fn_or_cap(fs.subrange(1, fs.len() as int))
    }
}

pub proof fn lemma_fields_fn_or_cap(fs: Seq<(Seq<char>, TyV)>)
    ensures
        fields_fn_or_cap(fs) <==> exists|k: int| 0 <= k < fs.len() && has_fn_or_cap(#[trigger] fs[k].1),
    decreases fs.len(),
{
    if fs.len() > 0 {
        let rest = fs.subrange(1, fs.len() as int);
        lemma_fields_fn_or_cap(rest);
        if fields_fn_or_cap(rest) {
            let k = choose|k: int| 0 <= k < rest.len() && has_fn_or_cap(#[trigger] rest[k].1);
            assert(fs[k + 1] == rest[k]);
        }
        if exists|k: int| 0 <= k < fs.len() && has_fn_or_cap(#[trigger] fs[k].1) {
            let k = choose|k: int| 0 <= k < fs.len() && has_fn_or_cap(#[trigger] fs[k].1);
            if k > 0 {
                assert(rest[k - 1] == fs[k]);
            }
        }
    }
}

#[verifier::loop_isolation(false)]
pub fn contains_fn_or_cap(t: &Ty) -> (r: bool)
    ensures
        r == has_fn_or_cap(t@),
    decreases *t,
{
    match t {
        Ty::Fn(_, _) | Ty::Cap(_) => true,
        Ty::List(x) | Ty::Opt(x) => contains_fn_or_cap(x),
        Ty::Res(a, b) => contains_fn_or_cap(a) || contains_fn_or_cap(b),
        Ty::Rec(fs) => {
            proof {
                lemma_fields_view(fs@);
                lemma_fields_fn_or_cap(fields_view(fs@));
            }
            let mut i: usize = 0;
            while i < fs.len()
                invariant
                    i <= fs@.len(),
                    forall|k: int| 0 <= k < i ==> !has_fn_or_cap(#[trigger] fields_view(fs@)[k].1),
                decreases fs.len() - i,
            {
                proof {
                    assert(decreases_to!(fs => fs@));
                    assert(decreases_to!(fs@ => fs@[i as int]));
                    assert(decreases_to!(fs@[i as int] => fs@[i as int].1));
                }
                if contains_fn_or_cap(&fs[i].1) {
                    proof {
                        let fv = fields_view(fs@);
                        assert(has_fn_or_cap(fv[i as int].1));
                    }
                    return true;
                }
                i += 1;
            }
            false
        }
        _ => false,
    }
}

/// Property-test parameters are Int, Float, Bool, Text, or a List of these.
pub open spec fn prop_type_spec(t: TyV) -> bool {
    match t {
        TyV::Int | TyV::Float | TyV::Bool | TyV::Text => true,
        TyV::List(x) => match *x {
            TyV::Int | TyV::Float | TyV::Bool | TyV::Text => true,
            _ => false,
        },
        _ => false,
    }
}

pub fn prop_type_ok(t: &Ty) -> (r: bool)
    ensures
        r == prop_type_spec(t@),
{
    proof {
        reveal_with_fuel(ty_view, 2);
    }
    match t {
        Ty::Int | Ty::Float | Ty::Bool | Ty::Text => true,
        Ty::List(x) => match &**x {
            Ty::Int | Ty::Float | Ty::Bool | Ty::Text => true,
            _ => false,
        },
        _ => false,
    }
}

/// `Some`, `None`, `Ok` and `Err` are the builtin constructors.
pub open spec fn builtin_ctor_name(n: Seq<char>) -> bool {
    n == "Some"@ || n == "None"@ || n == "Ok"@ || n == "Err"@
}

pub fn is_builtin_ctor(name: &str) -> (r: bool)
    ensures
        r == builtin_ctor_name(name@),
{
    str_eq(name, "Some") || str_eq(name, "None") || str_eq(name, "Ok") || str_eq(name, "Err")
}

/// First binding of `name` in an association list of views.
pub open spec fn assoc_ty(m: Seq<(Seq<char>, TyV)>, name: Seq<char>) -> Option<TyV>
    decreases m.len(),
{
    if m.len() == 0 {
        None
    } else if m[0].0 == name {
        Some(m[0].1)
    } else {
        assoc_ty(m.subrange(1, m.len() as int), name)
    }
}

/// Replace each rigid parameter bound in `m` by its binding.
pub open spec fn subst_spec(t: TyV, m: Seq<(Seq<char>, TyV)>) -> TyV
    decreases t, 1nat,
{
    match t {
        TyV::Rigid(n) => match assoc_ty(m, n) {
            Some(u) => u,
            None => t,
        },
        TyV::List(x) => TyV::List(Box::new(subst_spec(*x, m))),
        TyV::Opt(x) => TyV::Opt(Box::new(subst_spec(*x, m))),
        TyV::Res(a, b) => TyV::Res(Box::new(subst_spec(*a, m)), Box::new(subst_spec(*b, m))),
        TyV::Rec(fs) => TyV::Rec(subst_fields(fs, m)),
        TyV::Fn(args, r) => TyV::Fn(subst_tys(args, m), Box::new(subst_spec(*r, m))),
        other => other,
    }
}

pub open spec fn subst_tys(s: Seq<TyV>, m: Seq<(Seq<char>, TyV)>) -> Seq<TyV>
    decreases s, 0nat,
{
    if s.len() == 0 {
        seq![]
    } else {
        seq![subst_spec(s[0], m)] + subst_tys(s.subrange(1, s.len() as int), m)
    }
}

pub open spec fn subst_fields(s: Seq<(Seq<char>, TyV)>, m: Seq<(Seq<char>, TyV)>) -> Seq<(Seq<char>, TyV)>
    decreases s, 0nat,
{
    if s.len() == 0 {
        seq![]
    } else {
        seq![(s[0].0, subst_spec(s[0].1, m))] + subst_fields(s.subrange(1, s.len() as int), m)
    }
}

pub proof fn lemma_subst_tys(s: Seq<TyV>, m: Seq<(Seq<char>, TyV)>)
    ensures
        subst_tys(s, m).len() == s.len(),
        forall|k: int| 0 <= k < s.len() ==> #[trigger] subst_tys(s, m)[k] == subst_spec(s[k], m),
    decreases s.len(),
{
    if s.len() > 0 {
        lemma_subst_tys(s.subrange(1, s.len() as int), m);
        assert forall|k: int| 0 <= k < s.len() implies #[trigger] subst_tys(s, m)[k] == subst_spec(s[k], m) by {
            if k > 0 {
                assert(s.subrange(1, s.len() as int)[k - 1] == s[k]);
            }
        }
    }
}

pub proof fn lemma_subst_fields(s: Seq<(Seq<char>, TyV)>, m: Seq<(Seq<char>, TyV)>)
    ensures
        subst_fields(s, m).len() == s.len(),
        forall|k: int| 0 <= k < s.len() ==> #[trigger] subst_fields(s, m)[k] == (s[k].0, subst_spec(s[k].1, m)),
    decreases s.len(),
{
    if s.len() > 0 {
        lemma_subst_fields(s.subrange(1, s.len() as int), m);
        assert forall|k: int| 0 <= k < s.len() implies #[trigger] subst_fields(s, m)[k] == (
            s[k].0,
            subst_spec(s[k].1, m),
        ) by {
            if k > 0 {
                assert(s.subrange(1, s.len() as int)[k - 1] == s[k]);
            }
        }
    }
}

pub open spec fn map_view(m: Seq<(String, Ty)>) -> Seq<(Seq<char>, TyV)> {
    fields_view(m)
}

fn assoc_find(m: &Vec<(String, Ty)>, name: &str) -> (r: Option<usize>)
    ensures
        match r {
            Some(k) => k < m@.len() && assoc_ty(map_view(m@), name@) == Some(m@[k as int].1@),
            None => assoc_ty(map_view(m@), name@) is None,
        },
{
    proof {
        lemma_fields_view(m@);
    }
    let mut i: usize = 0;
    assert(map_view(m@).subrange(0, m@.len() as int) =~= map_view(m@));
    while i < m.len()
        invariant
            i <= m@.len(),
            fields_view(m@).len() == m@.len(),
            forall|k: int| 0 <= k < m@.len() ==> #[trigger] fields_view(m@)[k] == (m@[k].0@, ty_view(m@[k].1)),
            assoc_ty(map_view(m@), name@) == assoc_ty(map_view(m@).subrange(i as int, m@.len() as int), name@),
        decreases m.len() - i,
    {
        let ghost rest = map_view(m@).subrange(i as int, m@.len() as int);
        if str_eq(m[i].0.as_str(), name) {
            assert(rest[0] == map_view(m@)[i as int]);
            return Some(i);
        }
        assert(rest.subrange(1, rest.len() as int) =~= map_view(m@).subrange(i + 1, m@.len() as int));
        i += 1;
    }
    None
}

/// Replace each rigid parameter bound in `map` by a copy of its binding.
#[verifier::loop_isolation(false)]
pub fn subst(t: &Ty, map: &Vec<(String, Ty)>) -> (r: Ty)
    ensures
        r@ == subst_spec(t@, map_view(map@)),
    decreases *t,
{
    match t {
        Ty::Rigid(name) => {
            let found = assoc_find(map, name.as_str());
            proof {
                assert(t@ == TyV::Rigid(name@));
            }
            let out = match found {
                Some(k) => map[k].1.copy(),
                None => Ty::Rigid(copy_string(name)),
            };
            proof {
                assert(out@ == subst_spec(t@, map_view(map@)));
            }
            out
        }
        Ty::List(x) => Ty::List(Box::new(subst(x, map))),
        Ty::Opt(x) => Ty::Opt(Box::new(subst(x, map))),
        Ty::Res(a, b) => Ty::Res(Box::new(subst(a, map)), Box::new(subst(b, map))),
        Ty::Rec(fs) => {
            proof {
                lemma_fields_view(fs@);
            }
            let mut out: Vec<(String, Ty)> = Vec::new();
            let mut i: usize = 0;
            while i < fs.len()
                invariant
                    i <= fs@.len(),
                    out@.len() == i,
                    forall|k: int| 0 <= k < i ==> (#[trigger] out@[k]).0@ == fs@[k].0@ && out@[k].1@
                        == subst_spec(fs@[k].1@, map_view(map@)),
                decreases fs.len() - i,
            {
                proof {
                    assert(decreases_to!(fs => fs@));
                    assert(decreases_to!(fs@ => fs@[i as int]));
                    assert(decreases_to!(fs@[i as int] => fs@[i as int].1));
                }
                let u = subst(&fs[i].1, map);
                out.push((copy_string(&fs[i].0), u));
                i += 1;
            }
            proof {
                lemma_fields_view(out@);
                lemma_subst_fields(fields_view(fs@), map_view(map@));
                assert(fields_view(out@) =~= subst_fields(fields_view(fs@), map_view(map@)));
            }
            Ty::Rec(out)
        }
        Ty::Fn(args, r) => {
            proof {
                lemma_tys_view(args@);
            }
            let mut out: Vec<Ty> = Vec::new();
            let mut i: usize = 0;
            while i < args.len()
                invariant
                    i <= args@.len(),
                    out@.len() == i,
                    forall|k: int| 0 <= k < i ==> (#[trigger] out@[k])@ == subst_spec(args@[k]@, map_view(map@)),
                decreases args.len() - i,
            {
                proof {
                    assert(decreases_to!(args => args@));
                    assert(decreases_to!(args@ => args@[i as int]));
                }
                let u = subst(&args[i], map);
                out.push(u);
                i += 1;
            }
            let rr = subst(r, map);
            proof {
                lemma_tys_view(out@);
                lemma_subst_tys(tys_view(args@), map_view(map@));
                assert(tys_view(out@) =~= subst_tys(tys_view(args@), map_view(map@)));
            }
            Ty::Fn(out, Box::new(rr))
        }
        _ => t.copy(),
    }
}

} // verus!

verus! {

// ---------- the substitution store ----------

pub open spec fn opt_ty_view(o: Option<Ty>) -> Option<TyV> {
    match o {
        Some(t) => Some(t@),
        None => None,
    }
}

/// The store of unification variables: index `i` holds the binding of
/// `Var(i)`, if any.
pub open spec fn store_view(v: Seq<Option<Ty>>) -> Seq<Option<TyV>> {
    v.map_values(|o: Option<Ty>| opt_ty_view(o))
}

/// Follow variable bindings from `t`, at most `fuel` steps.
pub open spec fn walk(st: Seq<Option<TyV>>, t: TyV, fuel: nat) -> TyV
    decreases fuel,
{
    if fuel == 0 {
        t
    } else {
        match t {
            TyV::Var(i) => if i < st.len() {
                match st[i as int] {
                    Some(u) => walk(st, u, (fuel - 1) as nat),
                    None => t,
                }
            } else {
                t
            },
            _ => t,
        }
    }
}

/// `t` with its chain of variable bindings followed; a chain without a
/// cycle visits each variable at most once.
pub open spec fn shallow_spec(st: Seq<Option<TyV>>, t: TyV) -> TyV {
    walk(st, t, st.len())
}

/// `t` with every bound variable replaced by its binding, to depth `fuel`.
pub open spec fn resolve_spec(st: Seq<Option<TyV>>, t: TyV, fuel: nat) -> TyV
    decreases fuel, 0nat,
{
    let s = shallow_spec(st, t);
    if fuel == 0 {
        s
    } else {
        match s {
            TyV::List(x) => TyV::List(Box::new(resolve_spec(st, *x, (fuel - 1) as nat))),
            TyV::Opt(x) => TyV::Opt(Box::new(resolve_spec(st, *x, (fuel - 1) as nat))),
            TyV::Res(a, b) => TyV::Res(
                Box::new(resolve_spec(st, *a, (fuel - 1) as nat)),
                Box::new(resolve_spec(st, *b, (fuel - 1) as nat)),
            ),
            TyV::Rec(fs) => TyV::Rec(resolve_fields(st, fs, (fuel - 1) as nat)),
            TyV::Fn(args, r) => TyV::Fn(
                resolve_tys(st, args, (fuel - 1) as nat),
                Box::new(resolve_spec(st, *r, (fuel - 1) as nat)),
            ),
            other => other,
        }
    }
}

pub open spec fn resolve_tys(st: Seq<Option<TyV>>, s: Seq<TyV>, fuel: nat) -> Seq<TyV>
    decreases fuel, s.len(),
{
    if s.len() == 0 {
        seq![]
    } else {
        seq![resolve_spec(st, s[0], fuel)] + resolve_tys(st, s.subrange(1, s.len() as int), fuel)
    }
}

pub open spec fn resolve_fields(st: Seq<Option<TyV>>, s: Seq<(Seq<char>, TyV)>, fuel: nat) -> Seq<(Seq<char>, TyV)>
    decreases fuel, s.len(),
{
    if s.len() == 0 {
        seq![]
    } else {
        seq![(s[0].0, resolve_spec(st, s[0].1, fuel))] + resolve_fields(st, s.subrange(1, s.len() as int), fuel)
    }
}

/// Whether `Var(v)` occurs in `t` under the store, to depth `fuel`.
pub open spec fn occurs_spec(st: Seq<Option<TyV>>, v: nat, t: TyV, fuel: nat) -> bool
    decreases fuel, 0nat,
{
    let s = shallow_spec(st, t);
    if fuel == 0 {
        false
    } else {
        match s {
            TyV::Var(i) => i == v,
            TyV::List(x) => occurs_spec(st, v, *x, (fuel - 1) as nat),
            TyV::Opt(x) => occurs_spec(st, v, *x, (fuel - 1) as nat),
            TyV::Res(a, b) => occurs_spec(st, v, *a, (fuel - 1) as nat) || occurs_spec(st, v, *b, (fuel - 1) as nat),
            TyV::Rec(fs) => occurs_fields(st, v, fs, (fuel - 1) as nat),
            TyV::Fn(args, r) => occurs_tys(st, v, args, (fuel - 1) as nat) || occurs_spec(st, v, *r, (fuel - 1) as nat),
            _ => false,
        }
    }
}

pub open spec fn occurs_tys(st: Seq<Option<TyV>>, v: nat, s: Seq<TyV>, fuel: nat) -> bool
    decreases fuel, s.len(),
{
    if s.len() == 0 {
        false
    } else {
        occurs_spec(st, v, s[0], fuel) || occurs_tys(st, v, s.subrange(1, s.len() as int), fuel)
    }
}

pub open spec fn occurs_fields(st: Seq<Option<TyV>>, v: nat, s: Seq<(Seq<char>, TyV)>, fuel: nat) -> bool
    decreases fuel, s.len(),
{
    if s.len() == 0 {
        false
    } else {
        occurs_spec(st, v, s[0].1, fuel) || occurs_fields(st, v, s.subrange(1, s.len() as int), fuel)
    }
}

/// Display form of a type under the store, to depth `fuel`.
pub open spec fn show_spec(st: Seq<Option<TyV>>, t: TyV, fuel: nat) -> Seq<char>
    decreases fuel, 0nat,
{
    let s = shallow_spec(st, t);
    if fuel == 0 {
        seq![]
    } else {
        match s {
            TyV::Int => "Int"@,
            TyV::Float => "Float"@,
            TyV::Bool => "Bool"@,
            TyV::Text => "Text"@,
            TyV::Unit => "Unit"@,
            TyV::List(x) => "List["@ + show_spec(st, *x, (fuel - 1) as nat) + "]"@,
            TyV::Opt(x) => "Option["@ + show_spec(st, *x, (fuel - 1) as nat) + "]"@,
            TyV::Res(a, b) => "Result["@ + show_spec(st, *a, (fuel - 1) as nat) + ", "@ + show_spec(
                st,
                *b,
                (fuel - 1) as nat,
            ) + "]"@,
            TyV::Rec(fs) => "{"@ + show_fields(st, fs, (fuel - 1) as nat) + "}"@,
            TyV::Fn(args, r) => "("@ + show_tys(st, args, (fuel - 1) as nat) + ") -> "@ + show_spec(
                st,
                *r,
                (fuel - 1) as nat,
            ),
            TyV::Named(n) => n,
            TyV::Cap(c) => c,
            TyV::Rigid(p) => p,
            TyV::Var(_) => "_"@,
            TyV::Error => "<error>"@,
        }
    }
}

/// Types shown and joined by `", "`.
pub open spec fn show_tys(st: Seq<Option<TyV>>, s: Seq<TyV>, fuel: nat) -> Seq<char>
    decreases fuel, s.len(),
{
    if s.len() == 0 {
        seq![]
    } else if s.len() == 1 {
        show_spec(st, s[0], fuel)
    } else {
        show_spec(st, s[0], fuel) + ", "@ + show_tys(st, s.subrange(1, s.len() as int), fuel)
    }
}

/// `name: Type` entries joined by `", "`.
pub open spec fn show_fields(st: Seq<Option<TyV>>, s: Seq<(Seq<char>, TyV)>, fuel: nat) -> Seq<char>
    decreases fuel, s.len(),
{
    if s.len() == 0 {
        seq![]
    } else if s.len() == 1 {
        s[0].0 + ": "@ + show_spec(st, s[0].1, fuel)
    } else {
        s[0].0 + ": "@ + show_spec(st, s[0].1, fuel) + ", "@ + show_fields(
            st,
            s.subrange(1, s.len() as int),
            fuel,
        )
    }
}

/// The store only gained bindings: its length is kept and every bound
/// variable keeps its binding.
pub open spec fn store_extends(a: Seq<Option<TyV>>, b: Seq<Option<TyV>>) -> bool {
    &&& a.len() <= b.len()
    &&& forall|i: int| 0 <= i < a.len() && a[i] is Some ==> #[trigger] b[i] == a[i]
}

} // verus!

verus! {

pub proof fn lemma_resolve_tys(st: Seq<Option<TyV>>, s: Seq<TyV>, f: nat)
    ensures
        resolve_tys(st, s, f).len() == s.len(),
        forall|k: int| 0 <= k < s.len() ==> #[trigger] resolve_tys(st, s, f)[k] == resolve_spec(st, s[k], f),
    decreases s.len(),
{
    if s.len() > 0 {
        lemma_resolve_tys(st, s.subrange(1, s.len() as int), f);
        assert forall|k: int| 0 <= k < s.len() implies #[trigger] resolve_tys(st, s, f)[k] == resolve_spec(st, s[k], f) by {
            if k > 0 {
                assert(s.subrange(1, s.len() as int)[k - 1] == s[k]);
            }
        }
    }
}

pub proof fn lemma_resolve_fields(st: Seq<Option<TyV>>, s: Seq<(Seq<char>, TyV)>, f: nat)
    ensures
        resolve_fields(st, s, f).len() == s.len(),
        forall|k: int| 0 <= k < s.len() ==> #[trigger] resolve_fields(st, s, f)[k] == (s[k].0, resolve_spec(st, s[k].1, f)),
    decreases s.len(),
{
    if s.len() > 0 {
        lemma_resolve_fields(st, s.subrange(1, s.len() as int), f);
        assert forall|k: int| 0 <= k < s.len() implies #[trigger] resolve_fields(st, s, f)[k] == (s[k].0, resolve_spec(st, s[k].1, f)) by {
            if k > 0 {
                assert(s.subrange(1, s.len() as int)[k - 1] == s[k]);
            }
        }
    }
}

pub proof fn lemma_occurs_tys(st: Seq<Option<TyV>>, v: nat, s: Seq<TyV>, f: nat)
    ensures
        occurs_tys(st, v, s, f) <==> exists|k: int| 0 <= k < s.len() && #[trigger] occurs_spec(st, v, s[k], f),
    decreases s.len(),
{
    if s.len() > 0 {
        let rest = s.subrange(1, s.len() as int);
        lemma_occurs_tys(st, v, rest, f);
        if occurs_spec(st, v, s[0], f) {
            assert(occurs_spec(st, v, s[0], f));
        }
        if occurs_tys(st, v, rest, f) {
            let k = choose|k: int| 0 <= k < rest.len() && #[trigger] occurs_spec(st, v, rest[k], f);
            assert(s[k + 1] == rest[k]);
        }
        if exists|k: int| 0 <= k < s.len() && #[trigger] occurs_spec(st, v, s[k], f) {
            let k = choose|k: int| 0 <= k < s.len() && #[trigger] occurs_spec(st, v, s[k], f);
            if k > 0 {
                assert(rest[k - 1] == s[k]);
            }
        }
    }
}

pub proof fn lemma_occurs_fields(st: Seq<Option<TyV>>, v: nat, s: Seq<(Seq<char>, TyV)>, f: nat)
    ensures
        occurs_fields(st, v, s, f) <==> exists|k: int| 0 <= k < s.len() && #[trigger] occurs_spec(st, v, s[k].1, f),
    decreases s.len(),
{
    if s.len() > 0 {
        let rest = s.subrange(1, s.len() as int);
        lemma_occurs_fields(st, v, rest, f);
        if occurs_spec(st, v, s[0].1, f) {
            assert(occurs_spec(st, v, s[0].1, f));
        }
        if occurs_fields(st, v, rest, f) {
            let k = choose|k: int| 0 <= k < rest.len() && #[trigger] occurs_spec(st, v, rest[k].1, f);
            assert(s[k + 1] == rest[k]);
        }
        if exists|k: int| 0 <= k < s.len() && #[trigger] occurs_spec(st, v, s[k].1, f) {
            let k = choose|k: int| 0 <= k < s.len() && #[trigger] occurs_spec(st, v, s[k].1, f);
            if k > 0 {
                assert(rest[k - 1] == s[k]);
            }
        }
    }
}

} // verus!

verus! {

pub proof fn lemma_fields_view_cons(name: String, t: Ty, rest: Seq<(String, Ty)>)
    ensures
        fields_view(seq![(name, t)] + rest) == seq![(name@, t@)] + fields_view(rest),
{
    let s = seq![(name, t)] + rest;
    assert(s.subrange(1, s.len() as int) =~= rest);
}

/// Following the bindings from `Var(i)` ends at an unbound variable or at
/// another kind of type.
pub open spec fn walk_settled(st: Seq<Option<TyV>>, i: nat) -> bool {
    let s = shallow_spec(st, TyV::Var(i));
    !(s is Var && s->Var_0 < st.len() && st[s->Var_0 as int] is Some)
}

/// A store without a cycle of bindings: from every variable, following the
/// bindings settles.
pub open spec fn settled_store(st: Seq<Option<TyV>>) -> bool {
    forall|i: nat| #[trigger] walk_settled(st, i)
}

proof fn lemma_shallow_settled(st: Seq<Option<TyV>>, t: TyV)
    requires
        settled_store(st),
    ensures
        shallow_spec(st, shallow_spec(st, t)) == shallow_spec(st, t),
{
    let s = shallow_spec(st, t);
    if t is Var {
        assert(walk_settled(st, t->Var_0));
    } else {
        assert(s == t);
    }
    assert(walk(st, s, st.len()) == s);
}

proof fn lemma_show_resolve_step(st: Seq<Option<TyV>>, t: TyV, f: nat, g: nat)
    requires
        settled_store(st),
        0 < f <= g,
    ensures
        shallow_spec(st, resolve_spec(st, t, g)) == resolve_spec(st, t, g),
{
    let s = shallow_spec(st, t);
    lemma_shallow_settled(st, t);
    let r = resolve_spec(st, t, g);
    match s {
        TyV::List(_) | TyV::Opt(_) | TyV::Res(_, _) | TyV::Rec(_) | TyV::Fn(_, _) => {
            assert(!(r is Var));
            assert(walk(st, r, st.len()) == r);
        },
        _ => {
            assert(r == s);
        },
    }
}

/// Showing a type under a store without binding cycles gives the same text
/// as showing its resolution: `show` follows every binding that `resolve`
/// substitutes, as deep as it shows.
pub proof fn lemma_show_resolve(st: Seq<Option<TyV>>, t: TyV, f: nat, g: nat)
    requires
        settled_store(st),
        f <= g,
    ensures
        show_spec(st, resolve_spec(st, t, g), f) == show_spec(st, t, f),
    decreases f, 0nat,
{
    if f > 0 {
        lemma_show_resolve_step(st, t, f, g);
        let s = shallow_spec(st, t);
        let f1 = (f - 1) as nat;
        let g1 = (g - 1) as nat;
        match s {
            TyV::List(x) => {
                lemma_show_resolve(st, *x, f1, g1);
            },
            TyV::Opt(x) => {
                lemma_show_resolve(st, *x, f1, g1);
            },
            TyV::Res(a, b) => {
                lemma_show_resolve(st, *a, f1, g1);
                lemma_show_resolve(st, *b, f1, g1);
            },
            TyV::Rec(fs) => {
                lemma_show_resolve_fields(st, fs, f1, g1);
            },
            TyV::Fn(args, r) => {
                lemma_show_resolve_tys(st, args, f1, g1);
                lemma_show_resolve(st, *r, f1, g1);
            },
            _ => {},
        }
    }
}

proof fn lemma_show_resolve_tys(st: Seq<Option<TyV>>, s: Seq<TyV>, f: nat, g: nat)
    requires
        settled_store(st),
        f <= g,
    ensures
        show_tys(st, resolve_tys(st, s, g), f) == show_tys(st, s, f),
    decreases f, s.len(),
{
    if s.len() > 0 {
        let rest = s.subrange(1, s.len() as int);
        lemma_show_resolve(st, s[0], f, g);
        lemma_show_resolve_tys(st, rest, f, g);
        lemma_resolve_tys(st, rest, g);
        lemma_resolve_tys(st, s, g);
        let rs = resolve_tys(st, s, g);
        assert(rs[0] == resolve_spec(st, s[0], g));
        assert(rs.subrange(1, rs.len() as int) =~= resolve_tys(st, rest, g));
    }
}

proof fn lemma_show_resolve_fields(st: Seq<Option<TyV>>, s: Seq<(Seq<char>, TyV)>, f: nat, g: nat)
    requires
        settled_store(st),
        f <= g,
    ensures
        show_fields(st, resolve_fields(st, s, g), f) == show_fields(st, s, f),
    decreases f, s.len(),
{
    if s.len() > 0 {
        let rest = s.subrange(1, s.len() as int);
        lemma_show_resolve(st, s[0].1, f, g);
        lemma_show_resolve_fields(st, rest, f, g);
        lemma_resolve_fields(st, rest, g);
        lemma_resolve_fields(st, s, g);
        let rs = resolve_fields(st, s, g);
        assert(rs[0] == (s[0].0, resolve_spec(st, s[0].1, g)));
        assert(rs.subrange(1, rs.len() as int) =~= resolve_fields(st, rest, g));
    }
}

} // verus!
