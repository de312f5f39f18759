//! Typechecker: collect declarations, then check bodies. Unification-based
//! inference for locals and generic instantiation; declared types on defs
//! are the source of truth.
use vstd::prelude::*;
use crate::ast::{Def, Expr, ExprKind, Item, PatKind, Pattern, Program, Test, TypeDecl, TypeDef, TypeExpr, BinOp};
use crate::diag::{Diag, Span, cites_rule, rule_ids};
use crate::sort::sort_by_name;
use crate::convert::{TypeScope, conv_rel, lemma_sorted_view, same_by_name, sorted_names};
use crate::exhaust::strs_view;
use crate::text::{cat3, copy_string, owned, push_str, str_eq, usize_text};
use crate::types::{
    Scheme, Ty, TyV, contains_fn_or_cap, copy_tys, fields_view, is_builtin_ctor, prop_type_ok, lemma_fields_view, lemma_occurs_fields, lemma_occurs_tys,
    lemma_resolve_fields, lemma_resolve_tys, lemma_tys_view, occurs_spec,
    opt_ty_view, resolve_fields, resolve_spec, resolve_tys, shallow_spec, show_fields, show_spec,
    show_tys, store_extends, store_view, subst, subst_spec, tys_view, walk, lemma_fields_view_cons,
};

verus! {

/// A local in scope: its type, whether it is a capability, and the lambda
/// nesting depth at which it was bound.
pub struct Binding {
    pub name: String,
    pub ty: Ty,
    pub is_cap: bool,
    pub lambda_depth: usize,
}

/// A typed hole found by the checker, with its expected type shown.
pub struct HoleNote {
    pub name: String,
    pub ty: String,
    pub span: Span,
}

pub struct CheckResult {
    pub diags: Vec<Diag>,
    pub holes: Vec<HoleNote>,
    pub defs: usize,
    pub tests: usize,
}

pub struct Checker<'a> {
    pub prog: &'a Program,
    /// alias name -> index of its declaring item
    pub aliases: Vec<(String, usize)>,
    /// variant type name -> ordered constructor list
    pub variants: Vec<(String, Vec<(String, Vec<Ty>)>)>,
    /// nominal record types: name -> fields sorted by name
    pub nominals: Vec<(String, Vec<(String, Ty)>)>,
    /// constructor name -> owning type, payload
    pub ctors: Vec<(String, (String, Vec<Ty>))>,
    pub sigs: Vec<(String, Scheme)>,
    pub consts: Vec<(String, Ty)>,
    pub builtins: Vec<(String, Scheme)>,
    pub vars: Vec<Option<Ty>>,
    pub env: Vec<Binding>,
    pub lambda_depth: usize,
    pub cur_ret: Option<Ty>,
    pub cur_tparams: Vec<String>,
    pub in_contract: bool,
    pub diags: Vec<Diag>,
    /// hole name, its type variable, span
    pub holes: Vec<(String, usize, Span)>,
}

/// What unification decides from the outermost form of `a` and `b` under
/// store `st`, both followed through their bound variables: the poison type
/// unifies with anything; a variable with itself; an unbound variable with
/// any type it does not occur in (a variable occurring in the other type
/// fails the occurs check); equal base types, and declared types,
/// capabilities and type parameters of the same name, unify; records of
/// different sizes, functions of different arities and different forms do
/// not. `None` where the answer rests on the parts (lists, options, results,
/// records of one size, functions of one arity).
pub open spec fn unify_top(st: Seq<Option<TyV>>, a: TyV, b: TyV) -> Option<bool> {
    let x = shallow_spec(st, a);
    let y = shallow_spec(st, b);
    if x is Error || y is Error {
        Some(true)
    } else if x is Var {
        if y == x {
            Some(true)
        } else if occurs_spec(st, x->Var_0, y, depth()) {
            Some(false)
        } else {
            Some(x->Var_0 < st.len() && st[x->Var_0 as int] is None)
        }
    } else if y is Var {
        if occurs_spec(st, y->Var_0, x, depth()) {
            Some(false)
        } else {
            Some(y->Var_0 < st.len() && st[y->Var_0 as int] is None)
        }
    } else {
        match (x, y) {
            (TyV::Int, TyV::Int) | (TyV::Float, TyV::Float) | (TyV::Bool, TyV::Bool) | (TyV::Text, TyV::Text) | (
                TyV::Unit,
                TyV::Unit,
            ) => Some(true),
            (TyV::Named(p), TyV::Named(q)) => Some(p == q),
            (TyV::Cap(p), TyV::Cap(q)) => Some(p == q),
            (TyV::Rigid(p), TyV::Rigid(q)) => Some(p == q),
            (TyV::List(_), TyV::List(_)) | (TyV::Opt(_), TyV::Opt(_)) | (TyV::Res(_, _), TyV::Res(_, _)) => None,
            (TyV::Rec(f), TyV::Rec(g)) => if f.len() != g.len() {
                Some(false)
            } else {
                None
            },
            (TyV::Fn(p, _), TyV::Fn(q, _)) => if p.len() != q.len() {
                Some(false)
            } else {
                None
            },
            _ => Some(false),
        }
    }
}

/// The store after a unification decided at the outermost form: a
/// successful binding of a variable to the other side's form, otherwise
/// the store as it was.
pub open spec fn unify_top_store(st: Seq<Option<TyV>>, a: TyV, b: TyV, r: bool) -> Seq<Option<TyV>> {
    let x = shallow_spec(st, a);
    let y = shallow_spec(st, b);
    if r && !(x is Error) && !(y is Error) && x is Var && y != x {
        st.update(x->Var_0 as int, Some(y))
    } else if r && !(x is Error) && !(y is Error) && !(x is Var) && y is Var {
        st.update(y->Var_0 as int, Some(x))
    } else {
        st
    }
}

/// Names an intermediate outcome of unification: the result `r1` and the
/// store `m` after a first part.
pub open spec fn unify_step(r1: bool, m: Seq<Option<TyV>>) -> bool {
    true
}

/// Unifying `a` with `b` from store `st`, following compound types at most
/// `fuel` levels deep, ends with result `r` and store `st2`: where the
/// outermost forms decide ([`unify_top`]), that decision and its binding;
/// lists and options unify their elements; results their Ok and then (if
/// those unified) their Err types; records, taken in field-name order, the
/// types of equally named fields one by one; functions their parameter
/// types one by one and then their result types. A failure keeps the
/// bindings made before it.
pub open spec fn unify_rel(st: Seq<Option<TyV>>, a: TyV, b: TyV, fuel: nat, r: bool, st2: Seq<Option<TyV>>) -> bool
    decreases fuel, 0nat,
{
    if fuel == 0 {
        !r && st2 == st
    } else {
        match unify_top(st, a, b) {
            Some(v) => r == v && st2 == unify_top_store(st, a, b, v),
            None => {
                let f = (fuel - 1) as nat;
                match (shallow_spec(st, a), shallow_spec(st, b)) {
                    (TyV::List(p), TyV::List(q)) => unify_rel(st, *p, *q, f, r, st2),
                    (TyV::Opt(p), TyV::Opt(q)) => unify_rel(st, *p, *q, f, r, st2),
                    (TyV::Res(p1, p2), TyV::Res(q1, q2)) => exists|r1: bool, m: Seq<Option<TyV>>|
                        #![trigger unify_step(r1, m)]
                        unify_step(r1, m) && unify_rel(st, *p1, *q1, f, r1, m) && if r1 {
                            unify_rel(m, *p2, *q2, f, r, st2)
                        } else {
                            !r && st2 == m
                        },
                    (TyV::Rec(fa), TyV::Rec(fb)) => exists|xs: Seq<(Seq<char>, TyV)>, ys: Seq<(Seq<char>, TyV)>|
                        #![trigger same_by_name(xs, fa), same_by_name(ys, fb)]
                        sorted_names(xs) && same_by_name(xs, fa) && sorted_names(ys) && same_by_name(ys, fb)
                            && unify_fields_rel(st, xs, ys, f, r, st2),
                    (TyV::Fn(pa, ra), TyV::Fn(pb, rb)) => exists|r1: bool, m: Seq<Option<TyV>>|
                        #![trigger unify_step(r1, m)]
                        unify_step(r1, m) && unify_seq_rel(st, pa, pb, f, r1, m) && if r1 {
                            unify_rel(m, *ra, *rb, f, r, st2)
                        } else {
                            !r && st2 == m
                        },
                    _ => !r && st2 == st,
                }
            },
        }
    }
}

/// Unifying equally named fields of two field lists in order.
pub open spec fn unify_fields_rel(
    st: Seq<Option<TyV>>,
    xs: Seq<(Seq<char>, TyV)>,
    ys: Seq<(Seq<char>, TyV)>,
    fuel: nat,
    r: bool,
    st2: Seq<Option<TyV>>,
) -> bool
    decreases fuel, xs.len(),
{
    if xs.len() == 0 || ys.len() == 0 {
        r == (xs.len() == ys.len()) && st2 == st
    } else if xs[0].0 != ys[0].0 {
        !r && st2 == st
    } else {
        exists|r1: bool, m: Seq<Option<TyV>>|
                        #![trigger unify_step(r1, m)]
            unify_step(r1, m) && unify_rel(st, xs[0].1, ys[0].1, fuel, r1, m) && if r1 {
                unify_fields_rel(m, xs.drop_first(), ys.drop_first(), fuel, r, st2)
            } else {
                !r && st2 == m
            }
    }
}

/// Unifying two type lists element by element.
pub open spec fn unify_seq_rel(st: Seq<Option<TyV>>, xs: Seq<TyV>, ys: Seq<TyV>, fuel: nat, r: bool, st2: Seq<Option<TyV>>) -> bool
    decreases fuel, xs.len(),
{
    if xs.len() == 0 || ys.len() == 0 {
        r == (xs.len() == ys.len()) && st2 == st
    } else {
        exists|r1: bool, m: Seq<Option<TyV>>|
                        #![trigger unify_step(r1, m)]
            unify_step(r1, m) && unify_rel(st, xs[0], ys[0], fuel, r1, m) && if r1 {
                unify_seq_rel(m, xs.drop_first(), ys.drop_first(), fuel, r, st2)
            } else {
                !r && st2 == m
            }
    }
}

proof fn lemma_store_extends_trans(a: Seq<Option<TyV>>, b: Seq<Option<TyV>>, c: Seq<Option<TyV>>)
    requires
        store_extends(a, b),
        store_extends(b, c),
    ensures
        store_extends(a, c),
{
    assert forall|i: int| 0 <= i < a.len() && a[i] is Some implies #[trigger] c[i] == a[i] by {
        assert(b[i] == a[i]);
    }
}

/// Unification only binds unbound variables.
pub proof fn lemma_unify_rel_extends(st: Seq<Option<TyV>>, a: TyV, b: TyV, fuel: nat, r: bool, st2: Seq<Option<TyV>>)
    requires
        unify_rel(st, a, b, fuel, r, st2),
    ensures
        store_extends(st, st2),
    decreases fuel, 0nat,
{
    if fuel > 0 {
        match unify_top(st, a, b) {
            Some(v) => {
                assert(store_extends(st, st2));
            },
            None => {
                let f = (fuel - 1) as nat;
                match (shallow_spec(st, a), shallow_spec(st, b)) {
                    (TyV::List(p), TyV::List(q)) => lemma_unify_rel_extends(st, *p, *q, f, r, st2),
                    (TyV::Opt(p), TyV::Opt(q)) => lemma_unify_rel_extends(st, *p, *q, f, r, st2),
                    (TyV::Res(p1, p2), TyV::Res(q1, q2)) => {
                        let (r1, m) = choose|r1: bool, m: Seq<Option<TyV>>|
                            #![trigger unify_step(r1, m)]
                            unify_step(r1, m) && unify_rel(st, *p1, *q1, f, r1, m) && if r1 {
                                unify_rel(m, *p2, *q2, f, r, st2)
                            } else {
                                !r && st2 == m
                            };
                        lemma_unify_rel_extends(st, *p1, *q1, f, r1, m);
                        if r1 {
                            lemma_unify_rel_extends(m, *p2, *q2, f, r, st2);
                            lemma_store_extends_trans(st, m, st2);
                        }
                    },
                    (TyV::Rec(fa), TyV::Rec(fb)) => {
                        let (xs, ys) = choose|xs: Seq<(Seq<char>, TyV)>, ys: Seq<(Seq<char>, TyV)>|
                            #![trigger same_by_name(xs, fa), same_by_name(ys, fb)]
                            sorted_names(xs) && same_by_name(xs, fa) && sorted_names(ys) && same_by_name(ys, fb)
                                && unify_fields_rel(st, xs, ys, f, r, st2);
                        lemma_unify_fields_extends(st, xs, ys, f, r, st2);
                    },
                    (TyV::Fn(pa, ra), TyV::Fn(pb, rb)) => {
                        let (r1, m) = choose|r1: bool, m: Seq<Option<TyV>>|
                            #![trigger unify_step(r1, m)]
                            unify_step(r1, m) && unify_seq_rel(st, pa, pb, f, r1, m) && if r1 {
                                unify_rel(m, *ra, *rb, f, r, st2)
                            } else {
                                !r && st2 == m
                            };
                        lemma_unify_seq_extends(st, pa, pb, f, r1, m);
                        if r1 {
                            lemma_unify_rel_extends(m, *ra, *rb, f, r, st2);
                            lemma_store_extends_trans(st, m, st2);
                        }
                    },
                    _ => {},
                }
            },
        }
    }
}

proof fn lemma_unify_fields_extends(
    st: Seq<Option<TyV>>,
    xs: Seq<(Seq<char>, TyV)>,
    ys: Seq<(Seq<char>, TyV)>,
    fuel: nat,
    r: bool,
    st2: Seq<Option<TyV>>,
)
    requires
        unify_fields_rel(st, xs, ys, fuel, r, st2),
    ensures
        store_extends(st, st2),
    decreases fuel, xs.len(),
{
    if xs.len() > 0 && ys.len() > 0 && xs[0].0 == ys[0].0 {
        let (r1, m) = choose|r1: bool, m: Seq<Option<TyV>>|
            #![trigger unify_step(r1, m)]
            unify_step(r1, m) && unify_rel(st, xs[0].1, ys[0].1, fuel, r1, m) && if r1 {
                unify_fields_rel(m, xs.drop_first(), ys.drop_first(), fuel, r, st2)
            } else {
                !r && st2 == m
            };
        lemma_unify_rel_extends(st, xs[0].1, ys[0].1, fuel, r1, m);
        if r1 {
            lemma_unify_fields_extends(m, xs.drop_first(), ys.drop_first(), fuel, r, st2);
            lemma_store_extends_trans(st, m, st2);
        }
    }
}

proof fn lemma_unify_seq_extends(st: Seq<Option<TyV>>, xs: Seq<TyV>, ys: Seq<TyV>, fuel: nat, r: bool, st2: Seq<Option<TyV>>)
    requires
        unify_seq_rel(st, xs, ys, fuel, r, st2),
    ensures
        store_extends(st, st2),
    decreases fuel, xs.len(),
{
    if xs.len() > 0 && ys.len() > 0 {
        let (r1, m) = choose|r1: bool, m: Seq<Option<TyV>>|
            #![trigger unify_step(r1, m)]
            unify_step(r1, m) && unify_rel(st, xs[0], ys[0], fuel, r1, m) && if r1 {
                unify_seq_rel(m, xs.drop_first(), ys.drop_first(), fuel, r, st2)
            } else {
                !r && st2 == m
            };
        lemma_unify_rel_extends(st, xs[0], ys[0], fuel, r1, m);
        if r1 {
            lemma_unify_seq_extends(m, xs.drop_first(), ys.drop_first(), fuel, r, st2);
            lemma_store_extends_trans(st, m, st2);
        }
    }
}

/// The base types: `Int`, `Float`, `Bool`, `Text` and `Unit`.
pub open spec fn base_ty(t: TyV) -> bool {
    t is Int || t is Float || t is Bool || t is Text || t is Unit
}

/// Unifying a result of an unbound variable and anything with a result
/// whose Ok type is a base type binds the variable to that type.
proof fn lemma_res_unify_binds(
    st: Seq<Option<TyV>>,
    k: nat,
    e: TyV,
    okt: TyV,
    et: TyV,
    r: bool,
    st2: Seq<Option<TyV>>,
)
    requires
        k < st.len(),
        st[k as int] is None,
        base_ty(okt),
        unify_rel(st, TyV::Res(Box::new(TyV::Var(k)), Box::new(e)), TyV::Res(Box::new(okt), Box::new(et)), depth(), r, st2),
    ensures
        k < st2.len(),
        st2[k as int] == Some(okt),
        e == TyV::Var(k + 1) && k + 1 < st.len() && st[(k + 1) as int] is None && base_ty(et) ==> st2[(k + 1) as int] == Some(et),
{
    let a = TyV::Res(Box::new(TyV::Var(k)), Box::new(e));
    let b = TyV::Res(Box::new(okt), Box::new(et));
    assert(shallow_spec(st, a) == a);
    assert(shallow_spec(st, b) == b);
    assert(unify_top(st, a, b) is None);
    let f = (depth() - 1) as nat;
    let (r1, m) = choose|r1: bool, m: Seq<Option<TyV>>|
        #![trigger unify_step(r1, m)]
        unify_step(r1, m) && unify_rel(st, TyV::Var(k), okt, f, r1, m) && if r1 {
            unify_rel(m, e, et, f, r, st2)
        } else {
            !r && st2 == m
        };
    assert(shallow_spec(st, TyV::Var(k)) == TyV::Var(k));
    assert(shallow_spec(st, okt) == okt);
    assert(!occurs_spec(st, k, okt, depth()));
    assert(unify_top(st, TyV::Var(k), okt) == Some(true));
    assert(r1 && m == st.update(k as int, Some(okt)));
    lemma_unify_rel_extends(m, e, et, f, r, st2);
    if e == TyV::Var(k + 1) && k + 1 < st.len() && st[(k + 1) as int] is None && base_ty(et) {
        assert(m[(k + 1) as int] is None);
        assert(shallow_spec(m, e) == e);
        assert(shallow_spec(m, et) == et);
        assert(!occurs_spec(m, k + 1, et, depth()));
        assert(unify_top(m, e, et) == Some(true));
        assert(st2 == m.update((k + 1) as int, Some(et)));
    }
}

/// With the Err variable bound to a base type, unifying a result of a
/// variable and it with a result of another base Err type fails.
proof fn lemma_res_err_mismatch(
    st: Seq<Option<TyV>>,
    j: nat,
    k: nat,
    et: TyV,
    o: TyV,
    e2: TyV,
    r: bool,
    st2: Seq<Option<TyV>>,
)
    requires
        k < st.len(),
        st[k as int] == Some(et),
        base_ty(et),
        base_ty(e2),
        e2 != et,
        unify_rel(st, TyV::Res(Box::new(TyV::Var(j)), Box::new(TyV::Var(k))), TyV::Res(Box::new(o), Box::new(e2)), depth(), r, st2),
    ensures
        !r,
{
    let a = TyV::Res(Box::new(TyV::Var(j)), Box::new(TyV::Var(k)));
    let b = TyV::Res(Box::new(o), Box::new(e2));
    assert(shallow_spec(st, a) == a);
    assert(shallow_spec(st, b) == b);
    assert(unify_top(st, a, b) is None);
    let f = (depth() - 1) as nat;
    let (r1, m) = choose|r1: bool, m: Seq<Option<TyV>>|
        #![trigger unify_step(r1, m)]
        unify_step(r1, m) && unify_rel(st, TyV::Var(j), o, f, r1, m) && if r1 {
            unify_rel(m, TyV::Var(k), e2, f, r, st2)
        } else {
            !r && st2 == m
        };
    if r1 {
        lemma_unify_rel_extends(st, TyV::Var(j), o, f, r1, m);
        assert(m[k as int] == Some(et));
        assert(walk(m, et, (m.len() - 1) as nat) == et);
        assert(shallow_spec(m, TyV::Var(k)) == et);
        assert(shallow_spec(m, e2) == e2);
        assert(unify_top(m, TyV::Var(k), e2) == Some(false));
    }
}

/// Follow-depth used for resolving, showing and unifying types.
pub open spec fn depth() -> nat {
    usize::MAX as nat
}

impl<'a> Checker<'a> {
    pub open spec fn st(&self) -> Seq<Option<TyV>> {
        store_view(self.vars@)
    }

    /// Everything but the store, the diagnostics and the holes is as in `o`.
    pub open spec fn same_context(&self, o: &Checker<'a>) -> bool {
        &&& self.prog == o.prog
        &&& self.aliases == o.aliases
        &&& self.variants == o.variants
        &&& self.nominals == o.nominals
        &&& self.ctors == o.ctors
        &&& self.sigs == o.sigs
        &&& self.consts == o.consts
        &&& self.builtins == o.builtins
        &&& self.env@ == o.env@
        &&& self.lambda_depth == o.lambda_depth
        &&& self.cur_ret == o.cur_ret
        &&& self.cur_tparams == o.cur_tparams
        &&& self.in_contract == o.in_contract
    }

    /// A new unification variable.
    pub fn fresh(&mut self) -> (r: Ty)
        ensures
            final(self).vars@ == old(self).vars@.push(None),
            r@ == TyV::Var(old(self).vars@.len()),
            final(self).same_context(old(self)),
            final(self).diags == old(self).diags,
            final(self).holes == old(self).holes,
            final(self).infer_post(old(self)),
    {
        self.vars.push(None);
        proof {
            lemma_seq_extends_refl(self.diags@);
            lemma_seq_extends_refl(self.holes@);
        }
        Ty::Var(self.vars.len() - 1)
    }

    /// `t` with its chain of variable bindings followed.
    pub fn shallow(&self, t: &Ty) -> (r: Ty)
        ensures
            r@ == shallow_spec(self.st(), t@),
    {
        let mut cur = t.copy();
        let mut fuel = self.vars.len();
        proof {
            assert(self.st().len() == self.vars@.len());
        }
        loop
            invariant
                fuel <= self.vars@.len(),
                walk(self.st(), t@, self.vars@.len() as nat) == walk(self.st(), cur@, fuel as nat),
            ensures
                walk(self.st(), t@, self.vars@.len() as nat) == cur@,
            decreases fuel,
        {
            if fuel == 0 {
                break;
            }
            let next = match &cur {
                Ty::Var(i) => {
                    if *i < self.vars.len() {
                        match &self.vars[*i] {
                            Some(n) => Some(n.copy()),
                            None => None,
                        }
                    } else {
                        None
                    }
                }
                _ => None,
            };
            match next {
                Some(n) => {
                    proof {
                        assert(self.st()[cur@->Var_0 as int] == opt_ty_view(self.vars@[cur@->Var_0 as int]));
                    }
                    cur = n;
                    fuel -= 1;
                }
                None => {
                    proof {
                        if cur@ is Var && (cur@->Var_0) < self.vars@.len() {
                            assert(self.st()[cur@->Var_0 as int] == opt_ty_view(self.vars@[cur@->Var_0 as int]));
                        }
                    }
                    break;
                }
            }
        }
        cur
    }

    /// Every bound variable replaced by its binding, to depth `fuel`.
    fn resolve_f(&self, t: &Ty, fuel: usize) -> (r: Ty)
        ensures
            r@ == resolve_spec(self.st(), t@, fuel as nat),
        decreases fuel,
    {
        let s = self.shallow(t);
        if fuel == 0 {
            return s;
        }
        match s {
            Ty::List(x) => Ty::List(Box::new(self.resolve_f(&x, fuel - 1))),
            Ty::Opt(x) => Ty::Opt(Box::new(self.resolve_f(&x, fuel - 1))),
            Ty::Res(a, b) => Ty::Res(Box::new(self.resolve_f(&a, fuel - 1)), Box::new(self.resolve_f(&b, fuel - 1))),
            Ty::Rec(fs) => {
                let mut out: Vec<(String, Ty)> = Vec::new();
                let mut i: usize = 0;
                while i < fs.len()
                    invariant
                        i <= fs@.len(),
                        out@.len() == i,
                        fuel > 0,
                        forall|k: int| 0 <= k < i ==> (#[trigger] out@[k]).0@ == fs@[k].0@ && out@[k].1@
                            == resolve_spec(self.st(), fs@[k].1@, (fuel - 1) as nat),
                    decreases fs.len() - i,
                {
                    let u = self.resolve_f(&fs[i].1, fuel - 1);
                    out.push((copy_string(&fs[i].0), u));
                    i += 1;
                }
                proof {
                    lemma_fields_view(out@);
                    lemma_fields_view(fs@);
                    lemma_resolve_fields(self.st(), fields_view(fs@), (fuel - 1) as nat);
                    assert(fields_view(out@) =~= resolve_fields(self.st(), fields_view(fs@), (fuel - 1) as nat));
                }
                Ty::Rec(out)
            }
            Ty::Fn(args, r) => {
                let mut out: Vec<Ty> = Vec::new();
                let mut i: usize = 0;
                while i < args.len()
                    invariant
                        i <= args@.len(),
                        out@.len() == i,
                        fuel > 0,
                        forall|k: int| 0 <= k < i ==> (#[trigger] out@[k])@ == resolve_spec(self.st(), args@[k]@, (fuel - 1) as nat),
                    decreases args.len() - i,
                {
                    let u = self.resolve_f(&args[i], fuel - 1);
                    out.push(u);
                    i += 1;
                }
                let rr = self.resolve_f(&r, fuel - 1);
                proof {
                    lemma_tys_view(out@);
                    lemma_tys_view(args@);
                    lemma_resolve_tys(self.st(), tys_view(args@), (fuel - 1) as nat);
                    assert(tys_view(out@) =~= resolve_tys(self.st(), tys_view(args@), (fuel - 1) as nat));
                }
                Ty::Fn(out, Box::new(rr))
            }
            other => other,
        }
    }

    /// Fully resolve a type for display and structural checks.
    pub fn resolve(&self, t: &Ty) -> (r: Ty)
        ensures
            r@ == resolve_spec(self.st(), t@, depth()),
    {
        self.resolve_f(t, usize::MAX)
    }

    #[verifier::loop_isolation(false)]
    fn occurs_f(&self, v: usize, t: &Ty, fuel: usize) -> (r: bool)
        ensures
            r == occurs_spec(self.st(), v as nat, t@, fuel as nat),
        decreases fuel,
    {
        let s = self.shallow(t);
        if fuel == 0 {
            return false;
        }
        match s {
            Ty::Var(i) => i == v,
            Ty::List(x) | Ty::Opt(x) => self.occurs_f(v, &x, fuel - 1),
            Ty::Res(a, b) => self.occurs_f(v, &a, fuel - 1) || self.occurs_f(v, &b, fuel - 1),
            Ty::Rec(fs) => {
                proof {
                    lemma_fields_view(fs@);
                    lemma_occurs_fields(self.st(), v as nat, fields_view(fs@), (fuel - 1) as nat);
                }
                let mut i: usize = 0;
                while i < fs.len()
                    invariant
                        i <= fs@.len(),
                        fuel > 0,
                        fields_view(fs@).len() == fs@.len(),
                        forall|k: int| 0 <= k < fs@.len() ==> #[trigger] fields_view(fs@)[k] == (fs@[k].0@, fs@[k].1@),
                        forall|k: int| 0 <= k < i ==> !occurs_spec(self.st(), v as nat, #[trigger] fs@[k].1@, (fuel - 1) as nat),
                    decreases fs.len() - i,
                {
                    if self.occurs_f(v, &fs[i].1, fuel - 1) {
                        proof {
                            assert(fields_view(fs@)[i as int].1 == fs@[i as int].1@);
                            lemma_occurs_fields(self.st(), v as nat, fields_view(fs@), (fuel - 1) as nat);
                        }
                        return true;
                    }
                    i += 1;
                }
                proof {
                    assert forall|k: int| 0 <= k < fields_view(fs@).len() implies !occurs_spec(self.st(), v as nat, #[trigger] fields_view(fs@)[k].1, (fuel - 1) as nat) by {
                        assert(fields_view(fs@)[k].1 == fs@[k].1@);
                    }
                }
                false
            }
            Ty::Fn(args, r) => {
                proof {
                    lemma_tys_view(args@);
                    lemma_occurs_tys(self.st(), v as nat, tys_view(args@), (fuel - 1) as nat);
                }
                let mut i: usize = 0;
                while i < args.len()
                    invariant
                        i <= args@.len(),
                        fuel > 0,
                        tys_view(args@).len() == args@.len(),
                        forall|k: int| 0 <= k < args@.len() ==> #[trigger] tys_view(args@)[k] == args@[k]@,
                        forall|k: int| 0 <= k < i ==> !occurs_spec(self.st(), v as nat, #[trigger] args@[k]@, (fuel - 1) as nat),
                    decreases args.len() - i,
                {
                    if self.occurs_f(v, &args[i], fuel - 1) {
                        proof {
                            assert(tys_view(args@)[i as int] == args@[i as int]@);
                            lemma_occurs_tys(self.st(), v as nat, tys_view(args@), (fuel - 1) as nat);
                        }
                        return true;
                    }
                    i += 1;
                }
                proof {
                    assert forall|k: int| 0 <= k < tys_view(args@).len() implies !occurs_spec(self.st(), v as nat, #[trigger] tys_view(args@)[k], (fuel - 1) as nat) by {
                        assert(tys_view(args@)[k] == args@[k]@);
                    }
                }
                self.occurs_f(v, &r, fuel - 1)
            }
            _ => false,
        }
    }

    /// Whether variable `v` occurs in `t` under the store.
    pub fn occurs(&self, v: usize, t: &Ty) -> (r: bool)
        ensures
            r == occurs_spec(self.st(), v as nat, t@, depth()),
    {
        self.occurs_f(v, t, usize::MAX)
    }

    fn show_f(&self, t: &Ty, fuel: usize) -> (r: String)
        ensures
            r@ == show_spec(self.st(), t@, fuel as nat),
        decreases fuel, 0nat,
    {
        let s = self.shallow(t);
        if fuel == 0 {
            return String::new();
        }
        let mut out = String::new();
        match &s {
            Ty::Int => push_str(&mut out, "Int"),
            Ty::Float => push_str(&mut out, "Float"),
            Ty::Bool => push_str(&mut out, "Bool"),
            Ty::Text => push_str(&mut out, "Text"),
            Ty::Unit => push_str(&mut out, "Unit"),
            Ty::List(x) => {
                push_str(&mut out, "List[");
                let inner = self.show_f(x, fuel - 1);
                push_str(&mut out, inner.as_str());
                push_str(&mut out, "]");
            }
            Ty::Opt(x) => {
                push_str(&mut out, "Option[");
                let inner = self.show_f(x, fuel - 1);
                push_str(&mut out, inner.as_str());
                push_str(&mut out, "]");
            }
            Ty::Res(a, b) => {
                push_str(&mut out, "Result[");
                let x = self.show_f(a, fuel - 1);
                push_str(&mut out, x.as_str());
                push_str(&mut out, ", ");
                let y = self.show_f(b, fuel - 1);
                push_str(&mut out, y.as_str());
                push_str(&mut out, "]");
            }
            Ty::Rec(fs) => {
                push_str(&mut out, "{");
                let inner = self.show_fields_f(fs, fuel - 1);
                push_str(&mut out, inner.as_str());
                push_str(&mut out, "}");
                proof {
                    assert(s@ == TyV::Rec(fields_view(fs@)));
                }
            }
            Ty::Fn(args, r) => {
                push_str(&mut out, "(");
                let inner = self.show_tys_f(args, fuel - 1);
                push_str(&mut out, inner.as_str());
                push_str(&mut out, ") -> ");
                let rr = self.show_f(r, fuel - 1);
                push_str(&mut out, rr.as_str());
            }
            Ty::Named(n) => push_str(&mut out, n.as_str()),
            Ty::Cap(c) => push_str(&mut out, c.as_str()),
            Ty::Rigid(p) => push_str(&mut out, p.as_str()),
            Ty::Var(_) => push_str(&mut out, "_"),
            Ty::Error => push_str(&mut out, "<error>"),
        }
        proof {
            assert(out@ =~= show_spec(self.st(), t@, fuel as nat));
        }
        out
    }

    fn show_tys_f(&self, ts: &Vec<Ty>, fuel: usize) -> (r: String)
        ensures
            r@ == show_tys(self.st(), tys_view(ts@), fuel as nat),
        decreases fuel, 1nat,
    {
        proof {
            lemma_tys_view(ts@);
        }
        let ghost sv = tys_view(ts@);
        let mut out = String::new();
        let mut i: usize = 0;
        assert(sv.subrange(0, sv.len() as int) =~= sv);
        while i < ts.len()
            invariant
                i <= ts@.len(),
                sv == tys_view(ts@),
                sv.len() == ts@.len(),
                forall|k: int| 0 <= k < ts@.len() ==> #[trigger] sv[k] == ts@[k]@,
                out@ + (if i == 0 { seq![] } else if i < sv.len() { ", "@ } else { seq![] })
                    + show_tys(self.st(), sv.subrange(i as int, sv.len() as int), fuel as nat) == show_tys(self.st(), sv, fuel as nat),
            decreases ts.len() - i,
        {
            let ghost rest = sv.subrange(i as int, sv.len() as int);
            if i > 0 {
                push_str(&mut out, ", ");
            }
            let x = self.show_f(&ts[i], fuel);
            push_str(&mut out, x.as_str());
            proof {
                assert(rest[0] == sv[i as int]);
                assert(rest.subrange(1, rest.len() as int) =~= sv.subrange(i + 1, sv.len() as int));
            }
            i += 1;
            proof {
                if i >= sv.len() {
                    assert(sv.subrange(i as int, sv.len() as int) =~= Seq::<TyV>::empty());
                }
            }
        }
        proof {
            assert(sv.subrange(i as int, sv.len() as int) =~= Seq::<TyV>::empty());
            if i == 0 {
                assert(sv =~= Seq::<TyV>::empty());
            }
            assert(out@ =~= show_tys(self.st(), sv, fuel as nat));
        }
        out
    }

    fn show_fields_f(&self, fs: &Vec<(String, Ty)>, fuel: usize) -> (r: String)
        ensures
            r@ == show_fields(self.st(), fields_view(fs@), fuel as nat),
        decreases fuel, 1nat,
    {
        proof {
            lemma_fields_view(fs@);
        }
        let ghost sv = fields_view(fs@);
        let mut out = String::new();
        let mut i: usize = 0;
        assert(sv.subrange(0, sv.len() as int) =~= sv);
        while i < fs.len()
            invariant
                i <= fs@.len(),
                sv == fields_view(fs@),
                sv.len() == fs@.len(),
                forall|k: int| 0 <= k < fs@.len() ==> #[trigger] sv[k] == (fs@[k].0@, fs@[k].1@),
                out@ + (if i == 0 { seq![] } else if i < sv.len() { ", "@ } else { seq![] })
                    + show_fields(self.st(), sv.subrange(i as int, sv.len() as int), fuel as nat) == show_fields(self.st(), sv, fuel as nat),
            decreases fs.len() - i,
        {
            let ghost rest = sv.subrange(i as int, sv.len() as int);
            if i > 0 {
                push_str(&mut out, ", ");
            }
            push_str(&mut out, fs[i].0.as_str());
            push_str(&mut out, ": ");
            let x = self.show_f(&fs[i].1, fuel);
            push_str(&mut out, x.as_str());
            proof {
                assert(rest[0] == sv[i as int]);
                assert(rest.subrange(1, rest.len() as int) =~= sv.subrange(i + 1, sv.len() as int));
            }
            i += 1;
            proof {
                if i >= sv.len() {
                    assert(sv.subrange(i as int, sv.len() as int) =~= Seq::<(Seq<char>, TyV)>::empty());
                }
            }
        }
        proof {
            assert(sv.subrange(i as int, sv.len() as int) =~= Seq::<(Seq<char>, TyV)>::empty());
            if i == 0 {
                assert(sv =~= Seq::<(Seq<char>, TyV)>::empty());
            }
            assert(out@ =~= show_fields(self.st(), sv, fuel as nat));
        }
        out
    }

    /// Display form of a type under the store (`_` for an unbound variable).
    pub fn show(&self, t: &Ty) -> (r: String)
        ensures
            r@ == show_spec(self.st(), t@, depth()),
    {
        self.show_f(t, usize::MAX)
    }

    /// Unify two types under the store, binding unbound variables; a bound
    /// variable keeps its binding. `false` on a mismatch or a failed
    /// occurs check; bindings made before a mismatch stay.
    #[verifier::loop_isolation(false)]
    fn unify_raw_f(&mut self, a: &Ty, b: &Ty, fuel: usize) -> (r: bool)
        ensures
            unify_rel(old(self).st(), a@, b@, fuel as nat, r, final(self).st()),
            fuel > 0 && unify_top(old(self).st(), a@, b@) is Some ==> r == unify_top(old(self).st(), a@, b@)->0
                && final(self).st() == unify_top_store(old(self).st(), a@, b@, r),
            final(self).vars@.len() == old(self).vars@.len(),
            store_extends(old(self).st(), final(self).st()),
            final(self).same_context(old(self)),
            final(self).diags == old(self).diags,
            final(self).holes == old(self).holes,
        decreases fuel,
    {
        let ghost a0 = a@;
        let ghost b0 = b@;
        let a = self.shallow(a);
        let b = self.shallow(b);
        if fuel == 0 {
            return false;
        }
        match (&a, &b) {
            (Ty::Error, _) | (_, Ty::Error) => true,
            (Ty::Var(i), _) => {
                if let Ty::Var(j) = &b {
                    if *i == *j {
                        return true;
                    }
                }
                if self.occurs(*i, &b) {
                    return false;
                }
                self.bind(*i, b)
            }
            (_, Ty::Var(j)) => {
                if self.occurs(*j, &a) {
                    return false;
                }
                self.bind(*j, a)
            }
            (Ty::Int, Ty::Int) | (Ty::Float, Ty::Float) | (Ty::Bool, Ty::Bool) | (Ty::Text, Ty::Text) | (
                Ty::Unit,
                Ty::Unit,
            ) => true,
            (Ty::List(x), Ty::List(y)) | (Ty::Opt(x), Ty::Opt(y)) => self.unify_raw_f(x, y, fuel - 1),
            (Ty::Res(a1, b1), Ty::Res(a2, b2)) => {
                let r1 = self.unify_raw_f(a1, a2, fuel - 1);
                let ghost m = self.st();
                if r1 {
                    let r2 = self.unify_raw_f(b1, b2, fuel - 1);
                    proof {
                        assert(unify_rel(old(self).st(), a1@, a2@, (fuel - 1) as nat, r1, m));
                        assert(unify_step(r1, m));
                    }
                    r2
                } else {
                    proof {
                        assert(unify_rel(old(self).st(), a1@, a2@, (fuel - 1) as nat, r1, m));
                        assert(unify_step(r1, m));
                    }
                    false
                }
            }
            (Ty::Named(x), Ty::Named(y)) => str_eq(x.as_str(), y.as_str()),
            (Ty::Cap(x), Ty::Cap(y)) => str_eq(x.as_str(), y.as_str()),
            (Ty::Rigid(x), Ty::Rigid(y)) => str_eq(x.as_str(), y.as_str()),
            (Ty::Rec(xs), Ty::Rec(ys)) => {
                proof {
                    lemma_fields_view(xs@);
                    lemma_fields_view(ys@);
                }
                if xs.len() != ys.len() {
                    return false;
                }
                proof {
                    assert(unify_top(old(self).st(), a0, b0) is None);
                }
                let ghost fa = fields_view(xs@);
                let ghost fb = fields_view(ys@);
                let cx = copy_fields(xs);
                let cy = copy_fields(ys);
                let xs = sort_by_name(cx);
                let ys = sort_by_name(cy);
                let ghost st0 = self.st();
                let ghost fsv = fields_view(xs@);
                let ghost gsv = fields_view(ys@);
                proof {
                    lemma_sorted_view(cx@, xs@);
                    lemma_sorted_view(cy@, ys@);
                    lemma_fields_view(xs@);
                    lemma_fields_view(ys@);
                    assert(fsv.skip(0) =~= fsv);
                    assert(gsv.skip(0) =~= gsv);
                    assert(st0 == old(self).st());
                    assert(a@ == TyV::Rec(fa));
                    assert(b@ == TyV::Rec(fb));
                    assert(sorted_names(fsv) && same_by_name(fsv, fa) && sorted_names(gsv) && same_by_name(gsv, fb));
                }
                let mut k: usize = 0;
                while k < xs.len()
                    invariant
                        k <= xs@.len(),
                        xs@.len() == ys@.len(),
                        fsv == fields_view(xs@),
                        gsv == fields_view(ys@),
                        fsv.len() == xs@.len(),
                        gsv.len() == ys@.len(),
                        forall|j: int| 0 <= j < xs@.len() ==> #[trigger] fsv[j] == (xs@[j].0@, xs@[j].1@),
                        forall|j: int| 0 <= j < ys@.len() ==> #[trigger] gsv[j] == (ys@[j].0@, ys@[j].1@),
                        forall|r: bool, st2: Seq<Option<TyV>>|
                            #[trigger] unify_fields_rel(self.st(), fsv.skip(k as int), gsv.skip(k as int), (fuel - 1) as nat, r, st2)
                                ==> unify_fields_rel(st0, fsv, gsv, (fuel - 1) as nat, r, st2),
                        fuel > 0,
                        self.vars@.len() == old(self).vars@.len(),
                        store_extends(old(self).st(), self.st()),
                        self.same_context(old(self)),
                        self.diags == old(self).diags,
                        self.holes == old(self).holes,
                    decreases xs.len() - k,
                {
                    let ghost before = self.st();
                    proof {
                        assert(fsv.skip(k as int)[0] == fsv[k as int]);
                        assert(gsv.skip(k as int)[0] == gsv[k as int]);
                        assert(fsv.skip(k as int).drop_first() =~= fsv.skip(k + 1));
                        assert(gsv.skip(k as int).drop_first() =~= gsv.skip(k + 1));
                    }
                    if !str_eq(xs[k].0.as_str(), ys[k].0.as_str()) {
                        proof {
                            assert(unify_fields_rel(before, fsv.skip(k as int), gsv.skip(k as int), (fuel - 1) as nat, false, before));
                            assert(unify_fields_rel(st0, fsv, gsv, (fuel - 1) as nat, false, self.st()));
                            assert(shallow_spec(old(self).st(), a0) == TyV::Rec(fa));
                            assert(shallow_spec(old(self).st(), b0) == TyV::Rec(fb));
                            assert(same_by_name(fsv, fa));
                            assert(unify_fields_rel(old(self).st(), fsv, gsv, (fuel - 1) as nat, false, self.st()));
                            assert(unify_rel(old(self).st(), a0, b0, fuel as nat, false, self.st()));
                        }
                        return false;
                    }
                    let rk = self.unify_raw_f(&xs[k].1, &ys[k].1, fuel - 1);
                    let ghost after = self.st();
                    if !rk {
                        proof {
                            assert(unify_rel(before, fsv.skip(k as int)[0].1, gsv.skip(k as int)[0].1, (fuel - 1) as nat, false, after));
                            assert(fsv.skip(k as int)[0].0 == gsv.skip(k as int)[0].0);
                            assert(unify_step(false, after));
                            assert(unify_fields_rel(before, fsv.skip(k as int), gsv.skip(k as int), (fuel - 1) as nat, false, after));
                            assert(unify_fields_rel(st0, fsv, gsv, (fuel - 1) as nat, false, self.st()));
                            assert(unify_rel(old(self).st(), a0, b0, fuel as nat, false, self.st()));
                        }
                        return false;
                    }
                    proof {
                        assert(unify_rel(before, fsv.skip(k as int)[0].1, gsv.skip(k as int)[0].1, (fuel - 1) as nat, true, after));
                        assert(fsv.skip(k as int)[0].0 == gsv.skip(k as int)[0].0);
                        assert(unify_step(true, after));
                        assert forall|r: bool, st2: Seq<Option<TyV>>|
                            #[trigger] unify_fields_rel(after, fsv.skip(k + 1), gsv.skip(k + 1), (fuel - 1) as nat, r, st2)
                                implies unify_fields_rel(st0, fsv, gsv, (fuel - 1) as nat, r, st2) by {
                            assert(unify_fields_rel(before, fsv.skip(k as int), gsv.skip(k as int), (fuel - 1) as nat, r, st2));
                        }
                    }
                    k += 1;
                }
                proof {
                    assert(fsv.skip(k as int) =~= Seq::<(Seq<char>, TyV)>::empty());
                    assert(gsv.skip(k as int) =~= Seq::<(Seq<char>, TyV)>::empty());
                    assert(unify_fields_rel(self.st(), fsv.skip(k as int), gsv.skip(k as int), (fuel - 1) as nat, true, self.st()));
                    assert(unify_fields_rel(st0, fsv, gsv, (fuel - 1) as nat, true, self.st()));
                    assert(unify_rel(old(self).st(), a0, b0, fuel as nat, true, self.st()));
                }
                true
            }
            (Ty::Fn(a1, r1), Ty::Fn(a2, r2)) => {
                proof {
                    lemma_tys_view(a1@);
                    lemma_tys_view(a2@);
                }
                if a1.len() != a2.len() {
                    return false;
                }
                let ghost st0 = self.st();
                let ghost pv = tys_view(a1@);
                let ghost qv = tys_view(a2@);
                proof {
                    assert(unify_top(old(self).st(), a0, b0) is None);
                    assert(pv.skip(0) =~= pv);
                    assert(qv.skip(0) =~= qv);
                }
                let mut k: usize = 0;
                while k < a1.len()
                    invariant
                        k <= a1@.len(),
                        a1@.len() == a2@.len(),
                        st0 == old(self).st(),
                        pv == tys_view(a1@),
                        qv == tys_view(a2@),
                        pv.len() == a1@.len(),
                        qv.len() == a2@.len(),
                        forall|j: int| 0 <= j < a1@.len() ==> #[trigger] pv[j] == a1@[j]@,
                        forall|j: int| 0 <= j < a2@.len() ==> #[trigger] qv[j] == a2@[j]@,
                        forall|r: bool, st2: Seq<Option<TyV>>|
                            #[trigger] unify_seq_rel(self.st(), pv.skip(k as int), qv.skip(k as int), (fuel - 1) as nat, r, st2)
                                ==> unify_seq_rel(st0, pv, qv, (fuel - 1) as nat, r, st2),
                        fuel > 0,
                        self.vars@.len() == old(self).vars@.len(),
                        store_extends(old(self).st(), self.st()),
                        self.same_context(old(self)),
                        self.diags == old(self).diags,
                        self.holes == old(self).holes,
                    decreases a1.len() - k,
                {
                    let ghost before = self.st();
                    proof {
                        assert(pv.skip(k as int)[0] == pv[k as int]);
                        assert(qv.skip(k as int)[0] == qv[k as int]);
                        assert(pv.skip(k as int).drop_first() =~= pv.skip(k + 1));
                        assert(qv.skip(k as int).drop_first() =~= qv.skip(k + 1));
                    }
                    let rk = self.unify_raw_f(&a1[k], &a2[k], fuel - 1);
                    let ghost after = self.st();
                    if !rk {
                        proof {
                            assert(unify_step(false, after));
                            assert(unify_seq_rel(before, pv.skip(k as int), qv.skip(k as int), (fuel - 1) as nat, false, after));
                            assert(unify_seq_rel(st0, pv, qv, (fuel - 1) as nat, false, after));
                            assert(unify_step(false, after));
                            assert(shallow_spec(old(self).st(), a0) == a@);
                            assert(unify_rel(old(self).st(), a0, b0, fuel as nat, false, self.st()));
                        }
                        return false;
                    }
                    proof {
                        assert(unify_step(true, after));
                        assert forall|r: bool, st2: Seq<Option<TyV>>|
                            #[trigger] unify_seq_rel(after, pv.skip(k + 1), qv.skip(k + 1), (fuel - 1) as nat, r, st2)
                                implies unify_seq_rel(st0, pv, qv, (fuel - 1) as nat, r, st2) by {
                            assert(unify_seq_rel(before, pv.skip(k as int), qv.skip(k as int), (fuel - 1) as nat, r, st2));
                        }
                    }
                    k += 1;
                }
                let ghost m = self.st();
                proof {
                    assert(pv.skip(k as int) =~= Seq::<TyV>::empty());
                    assert(qv.skip(k as int) =~= Seq::<TyV>::empty());
                    assert(unify_seq_rel(m, pv.skip(k as int), qv.skip(k as int), (fuel - 1) as nat, true, m));
                    assert(unify_seq_rel(st0, pv, qv, (fuel - 1) as nat, true, m));
                    assert(unify_step(true, m));
                }
                let rr = self.unify_raw_f(r1, r2, fuel - 1);
                proof {
                    assert(unify_rel(m, r1@, r2@, (fuel - 1) as nat, rr, self.st()));
                    assert(unify_rel(old(self).st(), a0, b0, fuel as nat, rr, self.st()));
                }
                rr
            }
            _ => false,
        }
    }

    /// Binds an unbound variable; refuses (returns `false`) when the index is
    /// out of the store or already bound.
    fn bind(&mut self, i: usize, t: Ty) -> (r: bool)
        ensures
            final(self).vars@.len() == old(self).vars@.len(),
            store_extends(old(self).st(), final(self).st()),
            r == (i < old(self).vars@.len() && old(self).vars@[i as int] is None),
            r ==> final(self).st() == old(self).st().update(i as int, Some(t@)),
            !r ==> final(self).vars == old(self).vars,
            final(self).same_context(old(self)),
            final(self).diags == old(self).diags,
            final(self).holes == old(self).holes,
    {
        if i < self.vars.len() && self.vars[i].is_none() {
            self.vars.set(i, Some(t));
            proof {
                assert(self.st() =~= old(self).st().update(i as int, Some(t@)));
            }
            true
        } else {
            false
        }
    }

    pub fn unify_raw(&mut self, a: &Ty, b: &Ty) -> (r: bool)
        ensures
            unify_rel(old(self).st(), a@, b@, depth(), r, final(self).st()),
            unify_top(old(self).st(), a@, b@) is Some ==> r == unify_top(old(self).st(), a@, b@)->0
                && final(self).st() == unify_top_store(old(self).st(), a@, b@, r),
            final(self).infer_post(old(self)),
            final(self).vars@.len() == old(self).vars@.len(),
            store_extends(old(self).st(), final(self).st()),
            final(self).same_context(old(self)),
            final(self).diags == old(self).diags,
            final(self).holes == old(self).holes,
    {
        proof {
            lemma_seq_extends_refl(self.holes@);
            lemma_seq_extends_refl(self.diags@);
        }
        self.unify_raw_f(a, b, usize::MAX)
    }

    /// Unify `expected` with `actual`; on a mismatch report `rule` with
    /// both types shown and give the poison type.
    pub fn unify(&mut self, expected: &Ty, actual: &Ty, span: Span, rule: &str, ctx: &str) -> (r: Ty)
        requires
            body_rule_ids().contains(rule@),
        ensures
            exists|ok: bool|
                #![trigger unify_step(ok, final(self).st())]
                unify_step(ok, final(self).st()) && unify_rel(old(self).st(), expected@, actual@, depth(), ok, final(self).st())
                    && (ok ==> final(self).diags@ == old(self).diags@ && r@ == shallow_spec(final(self).st(), expected@))
                    && (!ok ==> r@ == TyV::Error && final(self).diags@.len() == old(self).diags@.len() + 1),
            unify_top(old(self).st(), expected@, actual@) == Some(true) ==> final(self).diags@ == old(self).diags@
                && r@ == shallow_spec(final(self).st(), expected@),
            unify_top(old(self).st(), expected@, actual@) == Some(false) ==> r@ == TyV::Error && final(self).diags@.len()
                == old(self).diags@.len() + 1 && final(self).st() == old(self).st(),
            final(self).infer_post(old(self)),
            final(self).vars@.len() == old(self).vars@.len(),
            store_extends(old(self).st(), final(self).st()),
            final(self).same_context(old(self)),
            final(self).holes == old(self).holes,
            (final(self).diags@ == old(self).diags@ && r@ == shallow_spec(final(self).st(), expected@)) || (
            r@ == TyV::Error && final(self).diags@.len() == old(self).diags@.len() + 1
                && final(self).diags@.subrange(0, old(self).diags@.len() as int) == old(self).diags@
                && mismatch_diag(
                final(self).diags@.last(),
                rule@,
                ctx@,
                span,
                show_spec(final(self).st(), expected@, depth()),
                show_spec(final(self).st(), actual@, depth()),
            )),
    {
        proof {
            lemma_seq_extends_refl(self.holes@);
            lemma_seq_extends_refl(self.diags@);
        }
        if self.unify_raw(expected, actual) {
            proof {
                assert(unify_step(true, self.st()));
            }
            self.shallow(expected)
        } else {
            proof {
                assert(unify_step(false, self.st()));
            }
            let e = self.show(expected);
            let a = self.show(actual);
            let mut msg = owned("type mismatch ");
            push_str(&mut msg, ctx);
            let d = Diag::new(rule, msg, span).expected(e).actual(a);
            self.diags.push(d);
            proof {
                assert(self.diags@.subrange(0, old(self).diags@.len() as int) =~= old(self).diags@);
            }
            Ty::Error
        }
    }

    /// New variables for a scheme's type parameters, substituted into its
    /// parameter and result types.
    pub fn instantiate(&mut self, s: &Scheme) -> (r: (Vec<Ty>, Ty))
        ensures
            final(self).infer_post(old(self)),
            final(self).vars@ == old(self).vars@ + Seq::new(s.tparams@.len(), |k: int| None::<Ty>),
            final(self).same_context(old(self)),
            final(self).diags == old(self).diags,
            final(self).holes == old(self).holes,
            r.0@.len() == s.params@.len(),
            forall|k: int| 0 <= k < s.params@.len() ==> (#[trigger] r.0@[k])@ == subst_spec(
                s.params@[k]@,
                inst_map(s.tparams@, old(self).vars@.len()),
            ),
            r.1@ == subst_spec(s.ret@, inst_map(s.tparams@, old(self).vars@.len())),
    {
        let mut map: Vec<(String, Ty)> = Vec::new();
        let mut k: usize = 0;
        while k < s.tparams.len()
            invariant
                k <= s.tparams@.len(),
                self.vars@ == old(self).vars@ + Seq::new(k as nat, |q: int| None::<Ty>),
                self.same_context(old(self)),
                self.diags == old(self).diags,
                self.holes == old(self).holes,
                fields_view(map@) == inst_map(s.tparams@.take(k as int), old(self).vars@.len()),
            decreases s.tparams.len() - k,
        {
            let v = self.fresh();
            let ghost before = map@;
            let name = copy_string(&s.tparams[k]);
            let ghost gn = name;
            let ghost gv = v;
            map.insert(0, (name, v));
            proof {
                assert(s.tparams@.take(k + 1).drop_last() =~= s.tparams@.take(k as int));
                assert(map@ =~= seq![(gn, gv)] + before);
                lemma_fields_view_cons(gn, gv, before);
                assert(self.vars@ =~= old(self).vars@ + Seq::new((k + 1) as nat, |q: int| None::<Ty>));
            }
            k += 1;
        }
        proof {
            assert(s.tparams@.take(k as int) =~= s.tparams@);
            lemma_seq_extends_refl(self.holes@);
            lemma_seq_extends_refl(self.diags@);
            assert forall|i: int| 0 <= i < old(self).st().len() && old(self).st()[i] is Some implies #[trigger] self.st()[i] == old(self).st()[i] by {
                assert(self.vars@[i] == old(self).vars@[i]);
            }
        }
        let mut params: Vec<Ty> = Vec::new();
        let mut i: usize = 0;
        while i < s.params.len()
            invariant
                i <= s.params@.len(),
                params@.len() == i,
                fields_view(map@) == inst_map(s.tparams@, old(self).vars@.len()),
                forall|q: int| 0 <= q < i ==> (#[trigger] params@[q])@ == subst_spec(
                    s.params@[q]@,
                    inst_map(s.tparams@, old(self).vars@.len()),
                ),
            decreases s.params.len() - i,
        {
            params.push(subst(&s.params[i], &map));
            i += 1;
        }
        let ret = subst(&s.ret, &map);
        (params, ret)
    }

    /// Innermost binding of `name` in scope.
    pub fn lookup_local(&self, name: &str) -> (r: Option<usize>)
        ensures
            match r {
                Some(k) => k < self.env@.len() && self.env@[k as int].name@ == name@ && forall|j: int|
                    k < j < self.env@.len() ==> (#[trigger] self.env@[j]).name@ != name@,
                None => forall|j: int| 0 <= j < self.env@.len() ==> (#[trigger] self.env@[j]).name@ != name@,
            },
    {
        let mut k = self.env.len();
        while k > 0
            invariant
                k <= self.env@.len(),
                forall|j: int| k <= j < self.env@.len() ==> (#[trigger] self.env@[j]).name@ != name@,
            decreases k,
        {
            if str_eq(self.env[k - 1].name.as_str(), name) {
                return Some(k - 1);
            }
            k -= 1;
        }
        None
    }

    /// Reports a capability stored in a container.
    pub fn forbid_cap_value(&mut self, t: &Ty, span: Span, container: &str)
        ensures
            final(self).infer_post(old(self)),
            final(self).vars == old(self).vars,
            final(self).same_context(old(self)),
            final(self).holes == old(self).holes,
            match shallow_spec(old(self).st(), t@) {
                TyV::Cap(name) => final(self).diags@ == old(self).diags@.push(final(self).diags@.last())
                    && cap_stored_diag(final(self).diags@.last(), name, container@, span),
                _ => final(self).diags == old(self).diags,
            },
    {
        proof {
            lemma_seq_extends_refl(self.holes@);
            lemma_seq_extends_refl(self.diags@);
            lemma_seq_extends_refl(self.vars@);
        }
        let s = self.shallow(t);
        if let Ty::Cap(name) = s {
            let mut msg = owned("capability `");
            push_str(&mut msg, name.as_str());
            push_str(&mut msg, "` cannot be stored in ");
            push_str(&mut msg, container);
            let d = Diag::new("W33", msg, span).hint(owned("capabilities may only be passed as arguments or let-bound"));
            self.diags.push(d);
            proof {
                assert(self.diags@ =~= old(self).diags@.push(self.diags@.last()));
                assert(self.diags@.subrange(0, old(self).diags@.len() as int) =~= old(self).diags@);
            }
        }
    }
}

/// A type-mismatch diagnostic citing `rule`, with both types shown.
pub open spec fn mismatch_diag(d: Diag, rule: Seq<char>, ctx: Seq<char>, span: Span, e: Seq<char>, a: Seq<char>) -> bool {
    &&& d.rule@ == rule
    &&& d.message@ == "type mismatch "@ + ctx
    &&& d.span == span
    &&& d.expected is Some && d.expected.unwrap()@ == e
    &&& d.actual is Some && d.actual.unwrap()@ == a
    &&& d.hint is None
}

/// The W33 diagnostic for a capability stored in a container.
pub open spec fn cap_stored_diag(d: Diag, name: Seq<char>, container: Seq<char>, span: Span) -> bool {
    &&& d.rule@ == "W33"@
    &&& d.message@ == "capability `"@ + name + "` cannot be stored in "@ + container
    &&& d.span == span
    &&& d.expected is None
    &&& d.actual is None
    &&& d.hint is Some && d.hint.unwrap()@ == "capabilities may only be passed as arguments or let-bound"@
}

/// Instantiation map of type parameters `tps` to the variables numbered
/// from `base`; a later parameter of the same name takes precedence.
pub open spec fn inst_map(tps: Seq<String>, base: nat) -> Seq<(Seq<char>, TyV)>
    decreases tps.len(),
{
    if tps.len() == 0 {
        seq![]
    } else {
        seq![(tps.last()@, TyV::Var((base + tps.len() - 1) as nat))] + inst_map(tps.drop_last(), base)
    }
}

/// A deep copy of a field list.
pub fn copy_fields(fs: &Vec<(String, Ty)>) -> (r: Vec<(String, Ty)>)
    ensures
        fields_view(r@) == fields_view(fs@),
        r@.len() == fs@.len(),
{
    let mut out: Vec<(String, Ty)> = Vec::new();
    let mut i: usize = 0;
    while i < fs.len()
        invariant
            i <= fs@.len(),
            out@.len() == i,
            forall|k: int| 0 <= k < i ==> (#[trigger] out@[k]).0@ == fs@[k].0@ && out@[k].1@ == fs@[k].1@,
        decreases fs.len() - i,
    {
        out.push((copy_string(&fs[i].0), fs[i].1.copy()));
        i += 1;
    }
    proof {
        crate::types::lemma_fields_view_ext(out@, fs@);
    }
    out
}

/// Name, type parameters, parameter types and result type of the `k`-th
/// standard-library function, in declaration order.
pub open spec fn builtin_scheme(k: int) -> (Seq<char>, Seq<Seq<char>>, Seq<TyV>, TyV) {
    if k == 0 {
        ("text_len"@, seq![], seq![TyV::Text], TyV::Int)
    } else if k == 1 {
        ("text_of_int"@, seq![], seq![TyV::Int], TyV::Text)
    } else if k == 2 {
        ("text_of_float"@, seq![], seq![TyV::Float], TyV::Text)
    } else if k == 3 {
        ("text_of_bool"@, seq![], seq![TyV::Bool], TyV::Text)
    } else if k == 4 {
        ("int_of_text"@, seq![], seq![TyV::Text], TyV::Opt(Box::new(TyV::Int)))
    } else if k == 5 {
        ("split"@, seq![], seq![TyV::Text, TyV::Text], TyV::List(Box::new(TyV::Text)))
    } else if k == 6 {
        ("join"@, seq![], seq![TyV::List(Box::new(TyV::Text)), TyV::Text], TyV::Text)
    } else if k == 7 {
        ("contains"@, seq![], seq![TyV::Text, TyV::Text], TyV::Bool)
    } else if k == 8 {
        ("chars"@, seq![], seq![TyV::Text], TyV::List(Box::new(TyV::Text)))
    } else if k == 9 {
        ("to_upper"@, seq![], seq![TyV::Text], TyV::Text)
    } else if k == 10 {
        ("to_lower"@, seq![], seq![TyV::Text], TyV::Text)
    } else if k == 11 {
        ("trim"@, seq![], seq![TyV::Text], TyV::Text)
    } else if k == 12 {
        ("len"@, seq!["A"@], seq![TyV::List(Box::new(TyV::Rigid("A"@)))], TyV::Int)
    } else if k == 13 {
        ("list_get"@, seq!["A"@], seq![TyV::List(Box::new(TyV::Rigid("A"@))), TyV::Int], TyV::Opt(Box::new(TyV::Rigid("A"@))))
    } else if k == 14 {
        ("append"@, seq!["A"@], seq![TyV::List(Box::new(TyV::Rigid("A"@))), TyV::Rigid("A"@)], TyV::List(Box::new(TyV::Rigid("A"@))))
    } else if k == 15 {
        ("map"@, seq!["A"@, "B"@], seq![TyV::List(Box::new(TyV::Rigid("A"@))), TyV::Fn(seq![TyV::Rigid("A"@)], Box::new(TyV::Rigid("B"@)))], TyV::List(Box::new(TyV::Rigid("B"@))))
    } else if k == 16 {
        ("filter"@, seq!["A"@], seq![TyV::List(Box::new(TyV::Rigid("A"@))), TyV::Fn(seq![TyV::Rigid("A"@)], Box::new(TyV::Bool))], TyV::List(Box::new(TyV::Rigid("A"@))))
    } else if k == 17 {
        ("fold"@, seq!["A"@, "B"@], seq![TyV::List(Box::new(TyV::Rigid("A"@))), TyV::Rigid("B"@), TyV::Fn(seq![TyV::Rigid("B"@), TyV::Rigid("A"@)], Box::new(TyV::Rigid("B"@)))], TyV::Rigid("B"@))
    } else if k == 18 {
        ("range"@, seq![], seq![TyV::Int, TyV::Int], TyV::List(Box::new(TyV::Int)))
    } else if k == 19 {
        ("reverse"@, seq!["A"@], seq![TyV::List(Box::new(TyV::Rigid("A"@)))], TyV::List(Box::new(TyV::Rigid("A"@))))
    } else if k == 20 {
        ("sort_by"@, seq!["A"@], seq![TyV::List(Box::new(TyV::Rigid("A"@))), TyV::Fn(seq![TyV::Rigid("A"@)], Box::new(TyV::Int))], TyV::List(Box::new(TyV::Rigid("A"@))))
    } else if k == 21 {
        ("zip"@, seq!["A"@, "B"@], seq![TyV::List(Box::new(TyV::Rigid("A"@))), TyV::List(Box::new(TyV::Rigid("B"@)))], TyV::List(Box::new(TyV::Rec(seq![("fst"@, TyV::Rigid("A"@)), ("snd"@, TyV::Rigid("B"@))]))))
    } else if k == 22 {
        ("find"@, seq!["A"@], seq![TyV::List(Box::new(TyV::Rigid("A"@))), TyV::Fn(seq![TyV::Rigid("A"@)], Box::new(TyV::Bool))], TyV::Opt(Box::new(TyV::Rigid("A"@))))
    } else if k == 23 {
        ("index_of"@, seq!["A"@], seq![TyV::List(Box::new(TyV::Rigid("A"@))), TyV::Rigid("A"@)], TyV::Opt(Box::new(TyV::Int)))
    } else if k == 24 {
        ("unwrap_or"@, seq!["A"@], seq![TyV::Opt(Box::new(TyV::Rigid("A"@))), TyV::Rigid("A"@)], TyV::Rigid("A"@))
    } else if k == 25 {
        ("ok_or"@, seq!["A"@, "E"@], seq![TyV::Opt(Box::new(TyV::Rigid("A"@))), TyV::Rigid("E"@)], TyV::Res(Box::new(TyV::Rigid("A"@)), Box::new(TyV::Rigid("E"@))))
    } else if k == 26 {
        ("abs"@, seq![], seq![TyV::Int], TyV::Int)
    } else if k == 27 {
        ("min"@, seq![], seq![TyV::Int, TyV::Int], TyV::Int)
    } else if k == 28 {
        ("max"@, seq![], seq![TyV::Int, TyV::Int], TyV::Int)
    } else if k == 29 {
        ("int_to_float"@, seq![], seq![TyV::Int], TyV::Float)
    } else if k == 30 {
        ("float_to_int"@, seq![], seq![TyV::Float], TyV::Int)
    } else if k == 31 {
        ("print"@, seq![], seq![TyV::Cap("Io"@), TyV::Text], TyV::Unit)
    } else if k == 32 {
        ("read_line"@, seq![], seq![TyV::Cap("Io"@)], TyV::Text)
    } else if k == 33 {
        ("fs"@, seq![], seq![TyV::Cap("Io"@)], TyV::Cap("Fs"@))
    } else if k == 34 {
        ("fs_read"@, seq![], seq![TyV::Cap("Fs"@), TyV::Text], TyV::Res(Box::new(TyV::Text), Box::new(TyV::Text)))
    } else if k == 35 {
        ("fs_write"@, seq![], seq![TyV::Cap("Fs"@), TyV::Text, TyV::Text], TyV::Res(Box::new(TyV::Unit), Box::new(TyV::Text)))
    } else if k == 36 {
        ("rand"@, seq![], seq![TyV::Cap("Io"@)], TyV::Cap("Rand"@))
    } else if k == 37 {
        ("rand_int"@, seq![], seq![TyV::Cap("Rand"@), TyV::Int, TyV::Int], TyV::Int)
    } else if k == 38 {
        ("clock"@, seq![], seq![TyV::Cap("Io"@)], TyV::Cap("Clock"@))
    } else if k == 39 {
        ("now_ms"@, seq![], seq![TyV::Cap("Clock"@)], TyV::Int)
    } else if k == 40 {
        ("model"@, seq![], seq![TyV::Cap("Io"@)], TyV::Cap("Model"@))
    } else {
        (seq![], seq![], seq![], TyV::Unit)
    }
}

/// Number of standard-library functions.
pub open spec fn builtin_count() -> int {
    41
}

/// An entry of the signature table has the given name and scheme.
pub open spec fn sig_matches(e: (String, Scheme), s: (Seq<char>, Seq<Seq<char>>, Seq<TyV>, TyV)) -> bool {
    &&& e.0@ == s.0
    &&& strs_view(e.1.tparams@) =~= s.1
    &&& e.1.params@.len() == s.2.len()
    &&& forall|i: int| 0 <= i < s.2.len() ==> (#[trigger] e.1.params@[i])@ == s.2[i]
    &&& e.1.ret@ == s.3
}

fn rigid(n: &str) -> (r: Ty)
    ensures
        r@ == TyV::Rigid(n@),
{
    Ty::Rigid(owned(n))
}

fn list_of(t: Ty) -> (r: Ty)
    ensures
        r@ == TyV::List(Box::new(t@)),
{
    Ty::List(Box::new(t))
}

fn opt_of(t: Ty) -> (r: Ty)
    ensures
        r@ == TyV::Opt(Box::new(t@)),
{
    Ty::Opt(Box::new(t))
}

fn res_of(a: Ty, b: Ty) -> (r: Ty)
    ensures
        r@ == TyV::Res(Box::new(a@), Box::new(b@)),
{
    Ty::Res(Box::new(a), Box::new(b))
}

fn cap_ty(n: &str) -> (r: Ty)
    ensures
        r@ == TyV::Cap(n@),
{
    Ty::Cap(owned(n))
}

fn fn_of1(a: Ty, ret: Ty) -> (r: Ty)
    ensures
        r@ == TyV::Fn(seq![a@], Box::new(ret@)),
{
    let args = vec![a];
    proof {
        lemma_tys_view(args@);
        assert(tys_view(args@) =~= seq![args@[0]@]);
    }
    Ty::Fn(args, Box::new(ret))
}

fn fn_of2(a: Ty, b: Ty, ret: Ty) -> (r: Ty)
    ensures
        r@ == TyV::Fn(seq![a@, b@], Box::new(ret@)),
{
    let args = vec![a, b];
    proof {
        lemma_tys_view(args@);
        assert(tys_view(args@) =~= seq![args@[0]@, args@[1]@]);
    }
    Ty::Fn(args, Box::new(ret))
}

fn rec2(n1: &str, t1: Ty, n2: &str, t2: Ty) -> (r: Ty)
    ensures
        r@ == TyV::Rec(seq![(n1@, t1@), (n2@, t2@)]),
{
    let v = vec![(owned(n1), t1), (owned(n2), t2)];
    proof {
        lemma_fields_view(v@);
        assert(fields_view(v@) =~= seq![(n1@, v@[0].1@), (n2@, v@[1].1@)]);
    }
    Ty::Rec(v)
}

fn names0() -> (r: Vec<String>)
    ensures
        strs_view(r@) == Seq::<Seq<char>>::empty(),
{
    let r: Vec<String> = Vec::new();
    proof {
        assert(strs_view(r@) =~= Seq::<Seq<char>>::empty());
    }
    r
}

fn names1(a: &str) -> (r: Vec<String>)
    ensures
        strs_view(r@) == seq![a@],
{
    let r = vec![owned(a)];
    proof {
        assert(strs_view(r@) =~= seq![a@]);
    }
    r
}

fn names2(a: &str, b: &str) -> (r: Vec<String>)
    ensures
        strs_view(r@) == seq![a@, b@],
{
    let r = vec![owned(a), owned(b)];
    proof {
        assert(strs_view(r@) =~= seq![a@, b@]);
    }
    r
}

fn entry(name: &str, tparams: Vec<String>, params: Vec<Ty>, ret: Ty) -> (r: (String, Scheme))
    ensures
        r.0@ == name@,
        r.1.tparams == tparams,
        r.1.params == params,
        r.1.ret == ret,
{
    (owned(name), Scheme { tparams, params, ret })
}

/// The `k`-th standard-library signature.
#[verifier::rlimit(80)]
fn builtin_entry(k: usize) -> (r: (String, Scheme))
    requires
        k < builtin_count(),
    ensures
        sig_matches(r, builtin_scheme(k as int)),
{
    match k {
        0 => entry("text_len", names0(), vec![Ty::Text], Ty::Int),
        1 => entry("text_of_int", names0(), vec![Ty::Int], Ty::Text),
        2 => entry("text_of_float", names0(), vec![Ty::Float], Ty::Text),
        3 => entry("text_of_bool", names0(), vec![Ty::Bool], Ty::Text),
        4 => entry("int_of_text", names0(), vec![Ty::Text], opt_of(Ty::Int)),
        5 => entry("split", names0(), vec![Ty::Text, Ty::Text], list_of(Ty::Text)),
        6 => entry("join", names0(), vec![list_of(Ty::Text), Ty::Text], Ty::Text),
        7 => entry("contains", names0(), vec![Ty::Text, Ty::Text], Ty::Bool),
        8 => entry("chars", names0(), vec![Ty::Text], list_of(Ty::Text)),
        9 => entry("to_upper", names0(), vec![Ty::Text], Ty::Text),
        10 => entry("to_lower", names0(), vec![Ty::Text], Ty::Text),
        11 => entry("trim", names0(), vec![Ty::Text], Ty::Text),
        12 => entry("len", names1("A"), vec![list_of(rigid("A"))], Ty::Int),
        13 => entry("list_get", names1("A"), vec![list_of(rigid("A")), Ty::Int], opt_of(rigid("A"))),
        14 => entry("append", names1("A"), vec![list_of(rigid("A")), rigid("A")], list_of(rigid("A"))),
        15 => entry("map", names2("A", "B"), vec![list_of(rigid("A")), fn_of1(rigid("A"), rigid("B"))], list_of(rigid("B"))),
        16 => entry("filter", names1("A"), vec![list_of(rigid("A")), fn_of1(rigid("A"), Ty::Bool)], list_of(rigid("A"))),
        17 => entry("fold", names2("A", "B"), vec![list_of(rigid("A")), rigid("B"), fn_of2(rigid("B"), rigid("A"), rigid("B"))], rigid("B")),
        18 => entry("range", names0(), vec![Ty::Int, Ty::Int], list_of(Ty::Int)),
        19 => entry("reverse", names1("A"), vec![list_of(rigid("A"))], list_of(rigid("A"))),
        20 => entry("sort_by", names1("A"), vec![list_of(rigid("A")), fn_of1(rigid("A"), Ty::Int)], list_of(rigid("A"))),
        21 => entry("zip", names2("A", "B"), vec![list_of(rigid("A")), list_of(rigid("B"))], list_of(rec2("fst", rigid("A"), "snd", rigid("B")))),
        22 => entry("find", names1("A"), vec![list_of(rigid("A")), fn_of1(rigid("A"), Ty::Bool)], opt_of(rigid("A"))),
        23 => entry("index_of", names1("A"), vec![list_of(rigid("A")), rigid("A")], opt_of(Ty::Int)),
        24 => entry("unwrap_or", names1("A"), vec![opt_of(rigid("A")), rigid("A")], rigid("A")),
        25 => entry("ok_or", names2("A", "E"), vec![opt_of(rigid("A")), rigid("E")], res_of(rigid("A"), rigid("E"))),
        26 => entry("abs", names0(), vec![Ty::Int], Ty::Int),
        27 => entry("min", names0(), vec![Ty::Int, Ty::Int], Ty::Int),
        28 => entry("max", names0(), vec![Ty::Int, Ty::Int], Ty::Int),
        29 => entry("int_to_float", names0(), vec![Ty::Int], Ty::Float),
        30 => entry("float_to_int", names0(), vec![Ty::Float], Ty::Int),
        31 => entry("print", names0(), vec![cap_ty("Io"), Ty::Text], Ty::Unit),
        32 => entry("read_line", names0(), vec![cap_ty("Io")], Ty::Text),
        33 => entry("fs", names0(), vec![cap_ty("Io")], cap_ty("Fs")),
        34 => entry("fs_read", names0(), vec![cap_ty("Fs"), Ty::Text], res_of(Ty::Text, Ty::Text)),
        35 => entry("fs_write", names0(), vec![cap_ty("Fs"), Ty::Text, Ty::Text], res_of(Ty::Unit, Ty::Text)),
        36 => entry("rand", names0(), vec![cap_ty("Io")], cap_ty("Rand")),
        37 => entry("rand_int", names0(), vec![cap_ty("Rand"), Ty::Int, Ty::Int], Ty::Int),
        38 => entry("clock", names0(), vec![cap_ty("Io")], cap_ty("Clock")),
        39 => entry("now_ms", names0(), vec![cap_ty("Clock")], Ty::Int),
        _ => entry("model", names0(), vec![cap_ty("Io")], cap_ty("Model")),
    }
}

/// The standard library's signatures.
pub fn builtin_sigs() -> (r: Vec<(String, Scheme)>)
    ensures
        r@.len() == builtin_count(),
        forall|k: int| 0 <= k < r@.len() ==> sig_matches(#[trigger] r@[k], builtin_scheme(k)),
{
    let mut m: Vec<(String, Scheme)> = Vec::new();
    let mut k: usize = 0;
    while k < 41
        invariant
            k <= builtin_count(),
            m@.len() == k,
            forall|j: int| 0 <= j < k ==> sig_matches(#[trigger] m@[j], builtin_scheme(j)),
        decreases 41 - k,
    {
        m.push(builtin_entry(k));
        k += 1;
    }
    m
}


/// The rules the checking of bodies, types and patterns reports under:
/// every numbered rule but the program-level [W7] (repeated top-level
/// names) and [W8] (the entry point).
pub open spec fn body_rule_ids() -> Set<Seq<char>> {
    set![
        "W1"@, "W2"@, "W3"@, "W4"@, "W5"@, "W6"@, "W9"@, "W10"@, "W11"@, "W12"@, "W13"@, "W14"@,
        "W15"@, "W16"@, "W17"@, "W18"@, "W19"@, "W20"@, "W21"@, "W22"@, "W23"@, "W24"@, "W25"@, "W26"@, "W27"@,
        "W28"@, "W29"@, "W30"@, "W31"@, "W32"@, "W33"@, "W34"@, "W35"@, "W36"@, "W37"@, "W38"@, "W39"@, "W40"@,
        "W41"@, "W42"@, "W43"@,
    ]
}

/// A diagnostic under one of [`body_rule_ids`].
pub open spec fn body_rule(d: Diag) -> bool {
    body_rule_ids().contains(d.rule@)
}

/// The body rules are numbered rules, and neither is [W7] nor [W8].
pub proof fn lemma_body_rules(r: Seq<char>)
    requires
        body_rule_ids().contains(r),
    ensures
        rule_ids().contains(r),
        r != "W7"@,
        r != "W8"@,
{
    reveal_strlit("W7");
    reveal_strlit("W8");
    reveal_strlit("W1");
    reveal_strlit("W2");
    reveal_strlit("W3");
    reveal_strlit("W4");
    reveal_strlit("W5");
    reveal_strlit("W6");
    reveal_strlit("W9");
    reveal_strlit("W10");
    reveal_strlit("W11");
    reveal_strlit("W12");
    reveal_strlit("W13");
    reveal_strlit("W14");
    reveal_strlit("W15");
    reveal_strlit("W16");
    reveal_strlit("W17");
    reveal_strlit("W18");
    reveal_strlit("W19");
    reveal_strlit("W20");
    reveal_strlit("W21");
    reveal_strlit("W22");
    reveal_strlit("W23");
    reveal_strlit("W24");
    reveal_strlit("W25");
    reveal_strlit("W26");
    reveal_strlit("W27");
    reveal_strlit("W28");
    reveal_strlit("W29");
    reveal_strlit("W30");
    reveal_strlit("W31");
    reveal_strlit("W32");
    reveal_strlit("W33");
    reveal_strlit("W34");
    reveal_strlit("W35");
    reveal_strlit("W36");
    reveal_strlit("W37");
    reveal_strlit("W38");
    reveal_strlit("W39");
    reveal_strlit("W40");
    reveal_strlit("W41");
    reveal_strlit("W42");
    reveal_strlit("W43");
    assert(r[0] == 'W');
    assert(r.len() == 2 ==> r[1] != '7' && r[1] != '8');
}

/// `b` extends `a`: the diagnostics of `a` come first, unchanged, and every
/// added diagnostic cites a numbered rule other than [W7] and [W8].
pub open spec fn diags_extend(a: Seq<Diag>, b: Seq<Diag>) -> bool {
    &&& a.len() <= b.len()
    &&& b.subrange(0, a.len() as int) == a
    &&& forall|k: int| a.len() <= k < b.len() ==> body_rule(#[trigger] b[k])
}

pub proof fn lemma_diags_extend_trans(a: Seq<Diag>, b: Seq<Diag>, c: Seq<Diag>)
    requires
        diags_extend(a, b),
        diags_extend(b, c),
    ensures
        diags_extend(a, c),
{
    assert(c.subrange(0, a.len() as int) =~= c.subrange(0, b.len() as int).subrange(0, a.len() as int));
    assert forall|k: int| a.len() <= k < c.len() implies body_rule(#[trigger] c[k]) by {
        if k < b.len() {
            assert(c.subrange(0, b.len() as int)[k] == c[k]);
            assert(b[k] == c[k]);
        }
    }
}

/// `b` extends `a`, every added diagnostic citing a numbered rule.
pub open spec fn diags_extend_top(a: Seq<Diag>, b: Seq<Diag>) -> bool {
    &&& a.len() <= b.len()
    &&& b.subrange(0, a.len() as int) == a
    &&& forall|k: int| a.len() <= k < b.len() ==> cites_rule(#[trigger] b[k])
}

pub proof fn lemma_top_from_body(a: Seq<Diag>, b: Seq<Diag>)
    requires
        diags_extend(a, b),
    ensures
        diags_extend_top(a, b),
{
    assert forall|k: int| a.len() <= k < b.len() implies cites_rule(#[trigger] b[k]) by {
        assert(body_rule(b[k]));
        lemma_body_rules(b[k].rule@);
    }
}

pub proof fn lemma_top_trans(a: Seq<Diag>, b: Seq<Diag>, c: Seq<Diag>)
    requires
        diags_extend_top(a, b),
        diags_extend_top(b, c),
    ensures
        diags_extend_top(a, c),
{
    assert(c.subrange(0, a.len() as int) =~= c.subrange(0, b.len() as int).subrange(0, a.len() as int));
    assert forall|k: int| a.len() <= k < c.len() implies cites_rule(#[trigger] c[k]) by {
        if k < b.len() {
            assert(c.subrange(0, b.len() as int)[k] == c[k]);
            assert(b[k] == c[k]);
        }
    }
}

pub fn is_cap_name(n: &str) -> (r: bool)
    ensures
        r == (n@ == "Io"@ || n@ == "Fs"@ || n@ == "Rand"@ || n@ == "Clock"@ || n@ == "Model"@),
{
    str_eq(n, "Io") || str_eq(n, "Fs") || str_eq(n, "Rand") || str_eq(n, "Clock") || str_eq(n, "Model")
}

pub fn contains_name(v: &Vec<String>, n: &str) -> (r: bool)
    ensures
        r == (exists|k: int| 0 <= k < v@.len() && (#[trigger] v@[k])@ == n@),
{
    let mut i: usize = 0;
    while i < v.len()
        invariant
            i <= v@.len(),
            forall|k: int| 0 <= k < i ==> (#[trigger] v@[k])@ != n@,
        decreases v.len() - i,
    {
        if str_eq(v[i].as_str(), n) {
            return true;
        }
        i += 1;
    }
    false
}

/// Index of the entry named `n` in a table keyed by name.
pub fn find_key<T>(v: &Vec<(String, T)>, n: &str) -> (r: Option<usize>)
    ensures
        match r {
            Some(k) => k < v@.len() && v@[k as int].0@ == n@ && forall|j: int| 0 <= j < k ==> (#[trigger] v@[j]).0@ != n@,
            None => forall|j: int| 0 <= j < v@.len() ==> (#[trigger] v@[j]).0@ != n@,
        },
{
    let mut i: usize = 0;
    while i < v.len()
        invariant
            i <= v@.len(),
            forall|j: int| 0 <= j < i ==> (#[trigger] v@[j]).0@ != n@,
        decreases v.len() - i,
    {
        if str_eq(v[i].0.as_str(), n) {
            return Some(i);
        }
        i += 1;
    }
    None
}

impl<'a> Checker<'a> {
    pub(crate) fn report(&mut self, d: Diag)
        requires
            body_rule(d),
        ensures
            final(self).diags@ == old(self).diags@.push(d),
            final(self).vars == old(self).vars,
            final(self).same_context(old(self)),
            final(self).holes == old(self).holes,
            final(self).infer_post(old(self)),
    {
        self.diags.push(d);
        proof {
            assert(self.diags@.subrange(0, old(self).diags@.len() as int) =~= old(self).diags@);
            lemma_seq_extends_refl(self.holes@);
        }
    }

    /// Reports a program-level diagnostic ([W7] or [W8] among them).
    fn report_top(&mut self, d: Diag)
        requires
            cites_rule(d),
        ensures
            final(self).diags@ == old(self).diags@.push(d),
            diags_extend_top(old(self).diags@, final(self).diags@),
            final(self).vars == old(self).vars,
            final(self).same_context(old(self)),
            final(self).holes == old(self).holes,
    {
        self.diags.push(d);
        proof {
            assert(self.diags@.subrange(0, old(self).diags@.len() as int) =~= old(self).diags@);
        }
    }

    pub(crate) fn report_err(&mut self, rule: &str, msg: String, span: Span) -> (r: Ty)
        requires
            body_rule_ids().contains(rule@),
        ensures
            r@ == TyV::Error,
            final(self).diags@.len() == old(self).diags@.len() + 1,
            final(self).diags@.last().rule@ == rule@,
            final(self).diags@.last().message@ == msg@,
            final(self).diags@.last().span == span,
            diags_extend(old(self).diags@, final(self).diags@),
            final(self).vars == old(self).vars,
            final(self).same_context(old(self)),
            final(self).holes == old(self).holes,
            final(self).infer_post(old(self)),
    {
        proof {
            lemma_seq_extends_refl(self.holes@);
        }
        self.diags.push(Diag::new(rule, msg, span));
        proof {
            assert(self.diags@.subrange(0, old(self).diags@.len() as int) =~= old(self).diags@);
        }
        Ty::Error
    }
}


/// `b` extends `a` by appending.
pub open spec fn seq_extends<T>(a: Seq<T>, b: Seq<T>) -> bool {
    a.len() <= b.len() && b.subrange(0, a.len() as int) == a
}

pub proof fn lemma_seq_extends_trans<T>(a: Seq<T>, b: Seq<T>, c: Seq<T>)
    requires
        seq_extends(a, b),
        seq_extends(b, c),
    ensures
        seq_extends(a, c),
{
    assert(c.subrange(0, a.len() as int) =~= c.subrange(0, b.len() as int).subrange(0, a.len() as int));
}

pub proof fn lemma_seq_extends_refl<T>(a: Seq<T>)
    ensures
        seq_extends(a, a),
{
    assert(a.subrange(0, a.len() as int) =~= a);
}

/// The innermost local of the scope named `n`.
pub open spec fn last_named(env: Seq<Binding>, n: Seq<char>) -> Option<int>
    decreases env.len(),
{
    if env.len() == 0 {
        None
    } else if env.last().name@ == n {
        Some(env.len() - 1)
    } else {
        last_named(env.drop_last(), n)
    }
}

/// The position of the first entry keyed `n`.
pub open spec fn first_key<T>(v: Seq<(String, T)>, n: Seq<char>) -> Option<int>
    decreases v.len(),
{
    if v.len() == 0 {
        None
    } else if v[0].0@ == n {
        Some(0)
    } else {
        match first_key(v.drop_first(), n) {
            Some(k) => Some(k + 1),
            None => None,
        }
    }
}

/// The function type of scheme `s` with its type parameters replaced by
/// the variables numbered from `base`.
pub open spec fn scheme_type(s: Scheme, base: nat) -> TyV {
    TyV::Fn(
        s.params@.map_values(|p: Ty| subst_spec(p@, inst_map(s.tparams@, base))),
        Box::new(subst_spec(s.ret@, inst_map(s.tparams@, base))),
    )
}

/// The type a name has where it is used: the innermost local of that name,
/// else a constant, else a def's scheme and else a builtin's, each with
/// fresh variables for its type parameters; `None` for an unknown name.
pub open spec fn name_type<'a>(c: Checker<'a>, n: Seq<char>) -> Option<TyV> {
    match last_named(c.env@, n) {
        Some(i) => Some(c.env@[i].ty@),
        None => match first_key(c.consts@, n) {
            Some(k) => Some(c.consts@[k].1@),
            None => match first_key(c.sigs@, n) {
                Some(k) => Some(scheme_type(c.sigs@[k].1, c.vars@.len())),
                None => match first_key(c.builtins@, n) {
                    Some(k) => Some(scheme_type(c.builtins@[k].1, c.vars@.len())),
                    None => None,
                },
            },
        },
    }
}

pub proof fn lemma_last_named(env: Seq<Binding>, n: Seq<char>, k: int)
    requires
        -1 <= k < env.len(),
        forall|j: int| k < j < env.len() ==> (#[trigger] env[j]).name@ != n,
    ensures
        k >= 0 && env[k].name@ == n ==> last_named(env, n) == Some(k),
        k == -1 ==> last_named(env, n) is None,
    decreases env.len(),
{
    if env.len() > 0 && k < env.len() - 1 {
        assert(env.last().name@ != n);
        assert forall|j: int| k < j < env.drop_last().len() implies (#[trigger] env.drop_last()[j]).name@ != n by {
            assert(env.drop_last()[j] == env[j]);
        }
        lemma_last_named(env.drop_last(), n, k);
        if k >= 0 {
            assert(env.drop_last()[k] == env[k]);
        }
    }
}

pub proof fn lemma_first_key<T>(v: Seq<(String, T)>, n: Seq<char>, k: int)
    requires
        0 <= k <= v.len(),
        forall|j: int| 0 <= j < k ==> (#[trigger] v[j]).0@ != n,
    ensures
        k < v.len() && v[k].0@ == n ==> first_key(v, n) == Some(k),
        k == v.len() ==> first_key(v, n) is None,
    decreases k,
{
    if k > 0 {
        assert(v[0].0@ != n);
        assert forall|j: int| 0 <= j < k - 1 implies (#[trigger] v.drop_first()[j]).0@ != n by {
            assert(v.drop_first()[j] == v[j + 1]);
        }
        lemma_first_key(v.drop_first(), n, k - 1);
    }
}

/// Instantiating a copy of scheme `s` gives `s`'s function type.
pub proof fn lemma_scheme_copy(s: Scheme, c: Scheme, params: Vec<Ty>, ret: Ty, base: nat)
    requires
        c.tparams@.len() == s.tparams@.len(),
        forall|k: int| 0 <= k < s.tparams@.len() ==> (#[trigger] c.tparams@[k])@ == s.tparams@[k]@,
        c.params@.len() == s.params@.len(),
        forall|k: int| 0 <= k < s.params@.len() ==> (#[trigger] c.params@[k])@ == s.params@[k]@,
        c.ret@ == s.ret@,
        params@.len() == c.params@.len(),
        forall|k: int| 0 <= k < c.params@.len() ==> (#[trigger] params@[k])@ == subst_spec(
            c.params@[k]@,
            inst_map(c.tparams@, base),
        ),
        ret@ == subst_spec(c.ret@, inst_map(c.tparams@, base)),
    ensures
        Ty::Fn(params, Box::new(ret))@ == scheme_type(s, base),
{
    lemma_inst_map_views(c.tparams@, s.tparams@, base);
    lemma_tys_view(params@);
    let m = inst_map(s.tparams@, base);
    assert(tys_view(params@) =~= s.params@.map_values(|p: Ty| subst_spec(p@, m)));
}

/// The instantiation map depends on the parameter names only through their
/// text.
pub proof fn lemma_inst_map_views(a: Seq<String>, b: Seq<String>, base: nat)
    requires
        a.len() == b.len(),
        forall|k: int| 0 <= k < a.len() ==> (#[trigger] a[k])@ == b[k]@,
    ensures
        inst_map(a, base) == inst_map(b, base),
    decreases a.len(),
{
    if a.len() > 0 {
        assert forall|k: int| 0 <= k < a.drop_last().len() implies (#[trigger] a.drop_last()[k])@ == b.drop_last()[k]@ by {
            assert(a.drop_last()[k] == a[k]);
            assert(b.drop_last()[k] == b[k]);
        }
        lemma_inst_map_views(a.drop_last(), b.drop_last(), base);
        assert(a.last()@ == b.last()@);
    }
}

/// `r` is the type of a use of the name `n` at `span` in `before`: the type
/// the name has there, or for an unknown name the poison type with a
/// diagnostic under [W3] at the use.
pub open spec fn var_typed<'a>(before: Checker<'a>, after: Checker<'a>, n: Seq<char>, span: Span, r: TyV) -> bool {
    &&& match name_type(before, n) {
        Some(t) => r == t,
        None => {
            &&& r == TyV::Error
            &&& after.diags@.len() == before.diags@.len() + 1
            &&& after.diags@.last().rule@ == "W3"@
            &&& after.diags@.last().span == span
        },
    }
    &&& match last_named(before.env@, n) {
        Some(i) => cap_use_diags(before, after, before.env@[i], span),
        None => name_type(before, n) is Some ==> after.diags@ == before.diags@,
    }
}

/// The diagnostics a use of local `b` at `span` adds: a capability used in a
/// contract is reported under [W29], one captured by a lambda (bound
/// outside the innermost lambda) under [W33], in that order; a use of any
/// other local adds none.
pub open spec fn cap_use_diags<'a>(before: Checker<'a>, after: Checker<'a>, b: Binding, span: Span) -> bool {
    let w29 = b.is_cap && before.in_contract;
    let w33 = b.is_cap && b.lambda_depth < before.lambda_depth;
    let d0 = before.diags@.len();
    &&& after.diags@.len() == d0 + (if w29 { 1int } else { 0int }) + (if w33 { 1int } else { 0int })
    &&& after.diags@.subrange(0, d0 as int) == before.diags@
    &&& w29 ==> after.diags@[d0 as int].rule@ == "W29"@ && after.diags@[d0 as int].span == span
    &&& w33 ==> after.diags@.last().rule@ == "W33"@ && after.diags@.last().span == span
}

/// A deep copy of a scheme.
pub fn copy_scheme(s: &Scheme) -> (r: Scheme)
    ensures
        r.tparams@.len() == s.tparams@.len(),
        forall|k: int| 0 <= k < s.tparams@.len() ==> (#[trigger] r.tparams@[k])@ == s.tparams@[k]@,
        r.params@.len() == s.params@.len(),
        forall|k: int| 0 <= k < s.params@.len() ==> (#[trigger] r.params@[k])@ == s.params@[k]@,
        r.ret@ == s.ret@,
{
    let mut tps: Vec<String> = Vec::new();
    let mut i: usize = 0;
    while i < s.tparams.len()
        invariant
            i <= s.tparams@.len(),
            tps@.len() == i,
            forall|k: int| 0 <= k < i ==> (#[trigger] tps@[k])@ == s.tparams@[k]@,
        decreases s.tparams.len() - i,
    {
        tps.push(copy_string(&s.tparams[i]));
        i += 1;
    }
    Scheme { tparams: tps, params: copy_tys(&s.params), ret: s.ret.copy() }
}

impl<'a> Checker<'a> {
    /// What every inference step keeps: the store only gains bindings and
    /// variables, diagnostics and holes are only appended, and the scope and
    /// the declaration tables are as they were.
    pub open spec fn infer_post(&self, o: &Checker<'a>) -> bool {
        &&& store_extends(o.st(), self.st())
        &&& diags_extend(o.diags@, self.diags@)
        &&& seq_extends(o.holes@, self.holes@)
        &&& self.same_context(o)
    }

    /// Like `infer_post`, but the scope may have gained bindings at its end.
    pub open spec fn bind_post(&self, o: &Checker<'a>) -> bool {
        &&& store_extends(o.st(), self.st())
        &&& diags_extend(o.diags@, self.diags@)
        &&& seq_extends(o.holes@, self.holes@)
        &&& seq_extends(o.env@, self.env@)
        &&& self.prog == o.prog
        &&& self.aliases == o.aliases
        &&& self.variants == o.variants
        &&& self.nominals == o.nominals
        &&& self.ctors == o.ctors
        &&& self.sigs == o.sigs
        &&& self.consts == o.consts
        &&& self.builtins == o.builtins
        &&& self.lambda_depth == o.lambda_depth
        &&& self.cur_ret == o.cur_ret
        &&& self.cur_tparams == o.cur_tparams
        &&& self.in_contract == o.in_contract
    }
}

pub proof fn lemma_infer_post_refl<'a>(a: &Checker<'a>)
    ensures
        a.infer_post(a),
        a.bind_post(a),
{
    lemma_seq_extends_refl(a.diags@);
    lemma_seq_extends_refl(a.holes@);
    lemma_seq_extends_refl(a.env@);
}

pub proof fn lemma_infer_post_trans<'a>(a: &Checker<'a>, b: &Checker<'a>, c: &Checker<'a>)
    requires
        b.infer_post(a),
        c.infer_post(b),
    ensures
        c.infer_post(a),
{
    lemma_diags_extend_trans(a.diags@, b.diags@, c.diags@);
    lemma_seq_extends_trans(a.holes@, b.holes@, c.holes@);
}

pub proof fn lemma_bind_post_trans<'a>(a: &Checker<'a>, b: &Checker<'a>, c: &Checker<'a>)
    requires
        b.bind_post(a),
        c.bind_post(b),
    ensures
        c.bind_post(a),
{
    lemma_diags_extend_trans(a.diags@, b.diags@, c.diags@);
    lemma_seq_extends_trans(a.holes@, b.holes@, c.holes@);
    lemma_seq_extends_trans(a.env@, b.env@, c.env@);
}


/// `now` is `before` with one hole recorded at its end: its name, the
/// index of its fresh type variable and its span.
pub open spec fn hole_recorded(
    before: Seq<(String, usize, Span)>,
    now: Seq<(String, usize, Span)>,
    name: Seq<char>,
    var: nat,
    span: Span,
) -> bool {
    &&& now.len() == before.len() + 1
    &&& now.subrange(0, before.len() as int) == before
    &&& now.last().0@ == name
    &&& now.last().1 == var
    &&& now.last().2 == span
}

/// What the kind of an expression alone fixes of its inferred type: the
/// literals their base type, negation and the comparisons `Bool`, a list
/// literal a list type, arithmetic a number type (or the poison type after
/// a reported mismatch), `++` text or a list, a lambda a function type of
/// its own arity, a record literal without `..` a record type, a hole a
/// unification variable, and `?` the variable standing for the Ok type.
pub open spec fn infer_shape(k: ExprKind, r: TyV) -> bool
    decreases k,
{
    match k {
        ExprKind::If { then, .. } => infer_shape(then.kind, r),
        ExprKind::Block { tail, .. } => infer_shape(tail.kind, r),
        ExprKind::Int(_) => r == TyV::Int,
        ExprKind::Float(_) => r == TyV::Float,
        ExprKind::Bool(_) => r == TyV::Bool,
        ExprKind::Text(_) => r == TyV::Text,
        ExprKind::Unit => r == TyV::Unit,
        ExprKind::NotOp(_) => r == TyV::Bool,
        ExprKind::List(_) => r is List,
        ExprKind::Hole(_) => r is Var,
        ExprKind::Propagate(_) => r is Var,
        ExprKind::NegOp(_) => r == TyV::Int || r == TyV::Float || r == TyV::Error,
        ExprKind::Lambda { params, .. } => r is Fn && r->Fn_0.len() == params@.len(),
        ExprKind::Record { spread, .. } => spread is None ==> r is Rec,
        ExprKind::Bin(op, _, _) => match op {
            BinOp::Add | BinOp::Sub | BinOp::Mul | BinOp::Div | BinOp::Rem => r == TyV::Int || r == TyV::Float
                || r == TyV::Error,
            BinOp::Concat => r == TyV::Text || r is List || r == TyV::Error,
            _ => r == TyV::Bool,
        },
        _ => true,
    }
}

impl<'a> Checker<'a> {
    /// Infer the type of `e`, checking it against `expected` when given.
    pub fn infer(&mut self, e: &Expr, expected: Option<&Ty>) -> (r: Ty)
        ensures
            final(self).infer_post(old(self)),
            infer_shape(e.kind, r@),
            e.kind is Hole ==> hole_recorded(old(self).holes@, final(self).holes@, e.kind->Hole_0@, old(
                self,
            ).vars@.len(), e.span) && r@ == TyV::Var(old(self).vars@.len()),
            e.kind is Var ==> r@ == match name_type(*old(self), e.kind->Var_0@) {
                Some(t) => t,
                None => TyV::Error,
            },
            e.kind is Var ==> cap_use_reported(*old(self), final(self).diags@, e.kind->Var_0@, e.span),
            e.kind is Propagate ==> propagate_checked(*old(self), final(self).diags@, e.span),
            e.kind is Ctor ==> ctor_typed(*old(self), final(self).diags@, e.kind->Ctor_0@, e.kind->Ctor_1@.len(), e.span, r@),
            e.kind is Call ==> call_typed(*old(self), final(self).diags@, *e.kind->Call_0, e.kind->Call_1@.len(), e.span, r@),
            e.kind is Propagate && not_result_operand(*old(self), *e.kind->Propagate_0) ==> reported_at(
                old(self).diags@.len() as int,
                final(self).diags@,
                "W26"@,
                e.kind->Propagate_0.span,
            ),
            lit_mismatch(old(self).st(), opt_ty(expected), e.kind) ==> reported_at(
                old(self).diags@.len() as int,
                final(self).diags@,
                "W18"@,
                e.span,
            ),
            lit_ty(e.kind) is Some && !lit_mismatch(old(self).st(), opt_ty(expected), e.kind) ==> final(self).diags@
                == old(self).diags@,
            if_checked(e.kind, opt_ty(expected), old(self).diags@.len() as int, final(self).diags@),
            e.kind is Propagate ==> propagate_ok_typed(*old(self), *e.kind->Propagate_0, final(self).st(), r@),
            e.kind is Propagate ==> propagate_err_checked(*old(self), *e.kind->Propagate_0, final(self).diags@, e.span),
            bin_operand_refused(*old(self), *e) ==> reported_at(old(self).diags@.len() as int, final(self).diags@, "W25"@, e.span),
        decreases *e, 3nat,
    {
        let t = self.infer_inner(e, expected);
        match expected {
            Some(exp) => {
                let ghost mid = *self;
                let _ = self.unify(exp, &t, e.span, "W18", "");
                proof {
                    lemma_seq_extends_refl(self.holes@);
                    lemma_infer_post_trans(old(self), &mid, self);
                    let from = old(self).diags@.len() as int;
                    if e.kind is Var {
                        match last_named(old(self).env@, e.kind->Var_0@) {
                            Some(i) => {
                                let b = old(self).env@[i];
                                if b.is_cap && old(self).in_contract {
                                    lemma_reported_extend(from, mid.diags@, self.diags@, "W29"@, e.span);
                                }
                                if b.is_cap && b.lambda_depth < old(self).lambda_depth {
                                    lemma_reported_extend(from, mid.diags@, self.diags@, "W33"@, e.span);
                                }
                            },
                            None => {},
                        }
                    }
                    if e.kind is Propagate && not_result_operand(*old(self), *e.kind->Propagate_0) {
                        lemma_reported_extend(from, mid.diags@, self.diags@, "W26"@, e.kind->Propagate_0.span);
                    }
                    if e.kind is Call && reported_at(from, mid.diags@, "W19"@, e.span) {
                        lemma_reported_extend(from, mid.diags@, self.diags@, "W19"@, e.span);
                    }
                    if e.kind is Ctor {
                        lemma_ctor_typed_extend(*old(self), mid.diags@, self.diags@, e.kind->Ctor_0@, e.kind->Ctor_1@.len(), e.span, t@);
                    }
                    if e.kind is Propagate && (old(self).lambda_depth > 0 || old(self).cur_ret is None) {
                        lemma_reported_extend(from, mid.diags@, self.diags@, "W26"@, e.span);
                    }
                    lemma_if_checked_extend(e.kind, opt_ty(expected), from, mid.diags@, self.diags@);
                    if bin_operand_refused(*old(self), *e) {
                        lemma_reported_extend(from, mid.diags@, self.diags@, "W25"@, e.span);
                    }
                    if e.kind is Propagate {
                        lemma_propagate_ok_extend(*old(self), *e.kind->Propagate_0, mid.st(), self.st(), t@);
                        lemma_propagate_err_extend(*old(self), *e.kind->Propagate_0, mid.diags@, self.diags@, e.span);
                    }
                    if lit_mismatch(old(self).st(), opt_ty(expected), e.kind) {
                        assert(mid == *old(self));
                        assert(unify_top(mid.st(), exp@, t@) == Some(false));
                        assert(self.diags@[self.diags@.len() - 1].rule@ == "W18"@);
                        assert(reported_at(from, self.diags@, "W18"@, e.span));
                    }
                    if lit_ty(e.kind) is Some && !lit_mismatch(old(self).st(), opt_ty(expected), e.kind) {
                        assert(mid == *old(self));
                        assert(unify_top(mid.st(), exp@, t@) == Some(true));
                    }
                }
            }
            None => {}
        }
        t
    }

    fn expect_elem(&mut self, expected: Option<&Ty>) -> (r: Ty)
        ensures
            final(self).infer_post(old(self)),
    {
        proof {
            lemma_infer_post_refl(self);
        }
        match expected {
            Some(t) => {
                let s = self.shallow(t);
                match s {
                    Ty::List(inner) => *inner,
                    _ => self.fresh(),
                }
            }
            None => self.fresh(),
        }
    }

    fn infer_inner(&mut self, e: &Expr, expected: Option<&Ty>) -> (r: Ty)
        ensures
            final(self).infer_post(old(self)),
            infer_shape(e.kind, r@),
            e.kind is Hole ==> hole_recorded(old(self).holes@, final(self).holes@, e.kind->Hole_0@, old(
                self,
            ).vars@.len(), e.span) && r@ == TyV::Var(old(self).vars@.len()),
            e.kind is Var ==> var_typed(*old(self), *final(self), e.kind->Var_0@, e.span, r@),
            e.kind is Var ==> cap_use_reported(*old(self), final(self).diags@, e.kind->Var_0@, e.span),
            e.kind is Propagate ==> propagate_checked(*old(self), final(self).diags@, e.span),
            e.kind is Ctor ==> ctor_typed(*old(self), final(self).diags@, e.kind->Ctor_0@, e.kind->Ctor_1@.len(), e.span, r@),
            e.kind is Call ==> call_typed(*old(self), final(self).diags@, *e.kind->Call_0, e.kind->Call_1@.len(), e.span, r@),
            e.kind is Propagate && not_result_operand(*old(self), *e.kind->Propagate_0) ==> reported_at(
                old(self).diags@.len() as int,
                final(self).diags@,
                "W26"@,
                e.kind->Propagate_0.span,
            ),
            lit_ty(e.kind) is Some ==> *final(self) == *old(self),
            bin_operand_refused(*old(self), *e) ==> reported_at(old(self).diags@.len() as int, final(self).diags@, "W25"@, e.span),
            e.kind is Propagate ==> propagate_ok_typed(*old(self), *e.kind->Propagate_0, final(self).st(), r@),
            e.kind is Propagate ==> propagate_err_checked(*old(self), *e.kind->Propagate_0, final(self).diags@, e.span),
            if_checked(e.kind, opt_ty(expected), old(self).diags@.len() as int, final(self).diags@),
        decreases *e, 2nat,
    {
        proof {
            lemma_infer_post_refl(self);
        }
        match &e.kind {
            ExprKind::Int(_) => Ty::Int,
            ExprKind::Float(_) => Ty::Float,
            ExprKind::Bool(_) => Ty::Bool,
            ExprKind::Text(_) => Ty::Text,
            ExprKind::Unit => Ty::Unit,
            ExprKind::Hole(name) => {
                let v = self.fresh();
                let i = self.vars.len() - 1;
                self.holes.push((copy_string(name), i, e.span));
                proof {
                    assert(self.holes@.subrange(0, old(self).holes@.len() as int) =~= old(self).holes@);
                }
                v
            }
            ExprKind::List(_) => self.infer_list(e, expected),
            ExprKind::Var(_) => self.infer_var(e),
            ExprKind::Ctor(_, _) => self.infer_ctor(e, expected),
            ExprKind::Record { .. } => self.infer_record(e, expected),
            ExprKind::NamedRec { .. } => self.infer_named_rec(e),
            ExprKind::Field(_, _) => self.infer_field(e),
            ExprKind::Call(_, _) => self.infer_call(e),
            ExprKind::Lambda { .. } => self.infer_lambda(e, expected),
            ExprKind::Block { .. } => self.infer_block(e, expected),
            ExprKind::If { .. } => self.infer_if(e, expected),
            ExprKind::Match { .. } => self.infer_match(e, expected),
            ExprKind::Bin(_, _, _) => self.infer_bin(e),
            ExprKind::NotOp(inner) => {
                let _ = self.infer(inner, Some(&Ty::Bool));
                Ty::Bool
            }
            ExprKind::NegOp(_) => self.infer_neg(e),
            ExprKind::Propagate(_) => self.infer_propagate(e),
        }
    }

    #[verifier::loop_isolation(false)]
    fn infer_list(&mut self, e: &Expr, expected: Option<&Ty>) -> (r: Ty)
        ensures
            final(self).infer_post(old(self)),
            r@ is List,
        decreases *e, 1nat,
    {
        let elem = self.expect_elem(expected);
        if let ExprKind::List(elems) = &e.kind {
            let mut i: usize = 0;
            while i < elems.len()
                invariant
                    self.infer_post(old(self)),
                decreases elems.len() - i,
            {
                let ghost s0 = *self;
                proof {
                    assert(decreases_to!(elems => elems@[i as int]));
                }
                let t = self.infer(&elems[i], Some(&elem));
                let ghost s1 = *self;
                self.forbid_cap_value(&t, elems[i].span, "a list");
                proof {
                    lemma_seq_extends_refl(self.holes@);
                    lemma_seq_extends_refl(self.vars@);
                    assert(self.infer_post(&s1)) by {
                        if self.diags@.len() > s1.diags@.len() {
                            assert(self.diags@.subrange(0, s1.diags@.len() as int) =~= s1.diags@);
                        } else {
                            lemma_seq_extends_refl(self.diags@);
                        }
                    }
                    lemma_infer_post_trans(&s0, &s1, self);
                    lemma_infer_post_trans(old(self), &s0, self);
                }
                i += 1;
            }
        }
        Ty::List(Box::new(elem))
    }
}


/// `a` followed by the decimal rendering of `n` and then `b`.
fn msg_num(a: &str, n: usize, b: &str) -> (r: String)
    ensures
        r@ == a@ + crate::text::nat_text(n as nat) + b@,
{
    let mut s = owned(a);
    let t = usize_text(n);
    push_str(&mut s, t.as_str());
    push_str(&mut s, b);
    s
}

/// "`name` takes N argument(s), got M"
fn arity_msg(name: &str, want: usize, got: usize) -> (r: String)
    ensures
        r@ == "`"@ + name@ + "` takes "@ + crate::text::nat_text(want as nat) + " argument(s), got "@
            + crate::text::nat_text(got as nat),
{
    let mut s = cat3("`", name, "` takes ");
    let w = usize_text(want);
    push_str(&mut s, w.as_str());
    push_str(&mut s, " argument(s), got ");
    let g = usize_text(got);
    push_str(&mut s, g.as_str());
    s
}

impl<'a> Checker<'a> {
    fn infer_var(&mut self, e: &Expr) -> (r: Ty)
        ensures
            final(self).infer_post(old(self)),
            e.kind is Var ==> var_typed(*old(self), *final(self), e.kind->Var_0@, e.span, r@),
        decreases *e, 1nat,
    {
        proof {
            lemma_infer_post_refl(self);
        }
        if let ExprKind::Var(name) = &e.kind {
            let n = name.as_str();
            match self.lookup_local(n) {
                Some(i) => {
                    proof {
                        lemma_last_named(self.env@, n@, i as int);
                    }
                    let ty = self.env[i].ty.copy();
                    let is_cap = self.env[i].is_cap;
                    let depth = self.env[i].lambda_depth;
                    if is_cap && self.in_contract {
                        let ghost s0 = *self;
                        self.report(Diag::new("W29", cat3("contract uses capability `", n, "`; contracts must be pure"), e.span));
                        proof {
                            lemma_infer_post_trans(old(self), &s0, self);
                        }
                    }
                    if is_cap && depth < self.lambda_depth {
                        let ghost s0 = *self;
                        self.report(
                            Diag::new("W33", cat3("lambda captures capability `", n, "`"), e.span).hint(
                                owned("pass the capability as a parameter of a named def instead"),
                            ),
                        );
                        proof {
                            lemma_infer_post_trans(old(self), &s0, self);
                        }
                    }
                    return ty;
                }
                None => {
                    proof {
                        lemma_last_named(self.env@, n@, -1);
                    }
                }
            }
            match find_key(&self.consts, n) {
                Some(k) => {
                    proof {
                        lemma_first_key(self.consts@, n@, k as int);
                    }
                    return self.consts[k].1.copy();
                }
                None => {
                    proof {
                        lemma_first_key(self.consts@, n@, self.consts@.len() as int);
                    }
                }
            }
            match find_key(&self.sigs, n) {
                Some(k) => {
                    proof {
                        lemma_first_key(self.sigs@, n@, k as int);
                    }
                    let sc = copy_scheme(&self.sigs[k].1);
                    let (params, ret) = self.instantiate(&sc);
                    proof {
                        lemma_scheme_copy(old(self).sigs@[k as int].1, sc, params, ret, old(self).vars@.len());
                    }
                    return Ty::Fn(params, Box::new(ret));
                }
                None => {
                    proof {
                        lemma_first_key(self.sigs@, n@, self.sigs@.len() as int);
                    }
                }
            }
            match find_key(&self.builtins, n) {
                Some(k) => {
                    proof {
                        lemma_first_key(self.builtins@, n@, k as int);
                    }
                    let sc = copy_scheme(&self.builtins[k].1);
                    let (params, ret) = self.instantiate(&sc);
                    proof {
                        lemma_scheme_copy(old(self).builtins@[k as int].1, sc, params, ret, old(self).vars@.len());
                    }
                    return Ty::Fn(params, Box::new(ret));
                }
                None => {
                    proof {
                        lemma_first_key(self.builtins@, n@, self.builtins@.len() as int);
                    }
                }
            }
            return self.report_err("W3", cat3("unknown name `", n, "`"), e.span);
        }
        Ty::Error
    }

    /// The element type the expected type gives an `Option`, or a new
    /// variable.
    fn opt_inner(&mut self, expected: Option<&Ty>) -> (r: Ty)
        ensures
            final(self).infer_post(old(self)),
    {
        proof {
            lemma_infer_post_refl(self);
        }
        match expected {
            Some(t) => match self.shallow(t) {
                Ty::Opt(inner) => *inner,
                _ => self.fresh(),
            },
            None => self.fresh(),
        }
    }

    /// The payload types the expected type gives a `Result`, or new
    /// variables.
    fn res_parts(&mut self, expected: Option<&Ty>) -> (r: (Ty, Ty))
        ensures
            final(self).infer_post(old(self)),
    {
        proof {
            lemma_infer_post_refl(self);
        }
        match expected {
            Some(t) => match self.shallow(t) {
                Ty::Res(x, y) => (*x, *y),
                _ => {
                    let a = self.fresh();
                    let ghost s0 = *self;
                    let b = self.fresh();
                    proof {
                        lemma_infer_post_trans(old(self), &s0, self);
                    }
                    (a, b)
                }
            },
            None => {
                let a = self.fresh();
                let ghost s0 = *self;
                let b = self.fresh();
                proof {
                    lemma_infer_post_trans(old(self), &s0, self);
                }
                (a, b)
            }
        }
    }

    /// Infer each argument against its payload type, refusing capabilities.
    #[verifier::loop_isolation(false)]
    fn infer_args(&mut self, e: &Expr, args: &Vec<Expr>, payload: &Vec<Ty>, container: &str)
        requires
            args@.len() == payload@.len(),
            forall|i: int| 0 <= i < args@.len() ==> decreases_to!(*e => args@[i]),
        ensures
            final(self).infer_post(old(self)),
        decreases *e, 0nat,
    {
        proof {
            lemma_infer_post_refl(self);
        }
        let mut i: usize = 0;
        while i < args.len()
            invariant
                self.infer_post(old(self)),
            decreases args.len() - i,
        {
            let ghost s0 = *self;
            let t = self.infer(&args[i], Some(&payload[i]));
            let ghost s1 = *self;
            self.forbid_cap_value(&t, args[i].span, container);
            proof {
                lemma_infer_post_trans(&s0, &s1, self);
                lemma_infer_post_trans(old(self), &s0, self);
            }
            i += 1;
        }
    }

    #[verifier::loop_isolation(false)]
    fn infer_ctor(&mut self, e: &Expr, expected: Option<&Ty>) -> (r: Ty)
        ensures
            final(self).infer_post(old(self)),
            e.kind is Ctor ==> ctor_typed(*old(self), final(self).diags@, e.kind->Ctor_0@, e.kind->Ctor_1@.len(), e.span, r@),
        decreases *e, 1nat,
    {
        proof {
            lemma_infer_post_refl(self);
        }
        if let ExprKind::Ctor(name, args) = &e.kind {
            proof {
                assert forall|i: int| 0 <= i < args@.len() implies decreases_to!(*e => args@[i]) by {
                    assert(decreases_to!(args => args@[i]));
                }
            }
            let n = name.as_str();
            if is_builtin_ctor(n) {
                let ghost s0 = *self;
                let (want, result, payload): (usize, Ty, Vec<Ty>) = if str_eq(n, "Some") {
                    let v = self.opt_inner(expected);
                    (1, Ty::Opt(Box::new(v.copy())), vec![v])
                } else if str_eq(n, "None") {
                    let v = self.opt_inner(expected);
                    (0, Ty::Opt(Box::new(v)), Vec::new())
                } else if str_eq(n, "Ok") {
                    let (a, b) = self.res_parts(expected);
                    (1, Ty::Res(Box::new(a.copy()), Box::new(b)), vec![a])
                } else {
                    let (a, b) = self.res_parts(expected);
                    (1, Ty::Res(Box::new(a), Box::new(b.copy())), vec![b])
                };
                proof {
                    lemma_infer_post_trans(old(self), &s0, self);
                }
                if args.len() != want {
                    let ghost s1 = *self;
                    self.report(Diag::new("W9", arity_msg(n, want, args.len()), e.span));
                    proof {
                        lemma_infer_post_trans(old(self), &s1, self);
                        assert(self.diags@[s1.diags@.len() as int].rule@ == "W9"@);
                    }
                    return result;
                }
                let ghost s2 = *self;
                self.infer_args(e, args, &payload, "an Option/Result");
                proof {
                    lemma_infer_post_trans(old(self), &s2, self);
                }
                return result;
            }
            match find_key(&self.ctors, n) {
                Some(k) => {
                    proof {
                        lemma_first_key(self.ctors@, n@, k as int);
                    }
                    let tyname = copy_string(&self.ctors[k].1.0);
                    let payload = copy_tys(&self.ctors[k].1.1);
                    if args.len() != payload.len() {
                        let ghost s1 = *self;
                        self.report(Diag::new("W12", arity_msg(n, payload.len(), args.len()), e.span));
                        proof {
                            lemma_infer_post_trans(old(self), &s1, self);
                            assert(self.diags@[s1.diags@.len() as int].rule@ == "W12"@);
                        }
                        return Ty::Named(tyname);
                    }
                    let ghost s2 = *self;
                    self.infer_args(e, args, &payload, "a variant");
                    proof {
                        lemma_infer_post_trans(old(self), &s2, self);
                    }
                    return Ty::Named(tyname);
                }
                None => {
                    proof {
                        lemma_first_key(self.ctors@, n@, self.ctors@.len() as int);
                    }
                    let r = self.report_err("W12", cat3("unknown variant `", n, "`"), e.span);
                    proof {
                        assert(self.diags@[self.diags@.len() - 1].rule@ == "W12"@);
                    }
                    return r;
                }
            }
        }
        Ty::Error
    }

    fn infer_if(&mut self, e: &Expr, expected: Option<&Ty>) -> (r: Ty)
        ensures
            final(self).infer_post(old(self)),
            e.kind is If ==> infer_shape(e.kind, r@),
            if_checked(e.kind, opt_ty(expected), old(self).diags@.len() as int, final(self).diags@),
        decreases *e, 1nat,
    {
        proof {
            lemma_infer_post_refl(self);
        }
        if let ExprKind::If { cond, then, els } = &e.kind {
            let ghost s0 = *self;
            let _ = self.infer(cond, Some(&Ty::Bool));
            let ghost s1 = *self;
            let tt = self.infer(then, expected);
            let ghost s2 = *self;
            let et = match expected {
                Some(x) => self.infer(els, Some(x)),
                None => self.infer(els, Some(&tt)),
            };
            let ghost s3 = *self;
            if expected.is_none() {
                let _ = self.unify(&tt, &et, els.span, "W22", "between if branches");
            } else {
                proof {
                    lemma_infer_post_refl(self);
                }
            }
            proof {
                lemma_infer_post_trans(&s0, &s1, &s2);
                lemma_infer_post_trans(&s0, &s2, &s3);
                lemma_infer_post_trans(&s0, &s3, self);
                let from = s0.diags@.len() as int;
                if lit_ty(cond.kind) is Some && lit_ty(cond.kind) != Some(TyV::Bool) {
                    assert(unify_top(s0.st(), TyV::Bool, lit_ty(cond.kind)->0) == Some(false));
                    assert(lit_mismatch(s0.st(), Some(TyV::Bool), cond.kind));
                    assert(reported_at(from, s1.diags@, "W18"@, cond.span));
                    lemma_infer_post_trans(&s1, &s2, &s3);
                    lemma_infer_post_trans(&s1, &s3, self);
                    lemma_reported_extend(from, s1.diags@, self.diags@, "W18"@, cond.span);
                }
                if expected is None && lit_ty(then.kind) is Some && lit_ty(els.kind) is Some && lit_ty(then.kind)
                    != lit_ty(els.kind) {
                    assert(tt@ == lit_ty(then.kind)->0);
                    assert(unify_top(s2.st(), tt@, lit_ty(els.kind)->0) == Some(false));
                    assert(lit_mismatch(s2.st(), Some(tt@), els.kind));
                    assert(reported_at(s2.diags@.len() as int, s3.diags@, "W18"@, els.span));
                    let k = choose|k: int| s2.diags@.len() <= k < s3.diags@.len() && (#[trigger] s3.diags@[k]).rule@ == "W18"@
                        && s3.diags@[k].span == els.span;
                    assert(reported_at(from, s3.diags@, "W18"@, els.span));
                    lemma_reported_extend(from, s3.diags@, self.diags@, "W18"@, els.span);
                }
            }
            return tt;
        }
        Ty::Error
    }

    fn infer_neg(&mut self, e: &Expr) -> (r: Ty)
        ensures
            final(self).infer_post(old(self)),
            r@ == TyV::Int || r@ == TyV::Float || r@ == TyV::Error,
        decreases *e, 1nat,
    {
        proof {
            lemma_infer_post_refl(self);
        }
        if let ExprKind::NegOp(inner) = &e.kind {
            let it = self.infer(inner, None);
            let ghost s1 = *self;
            let s = self.shallow(&it);
            match s {
                Ty::Int => Ty::Int,
                Ty::Float => Ty::Float,
                Ty::Error => Ty::Error,
                Ty::Var(_) => {
                    let _ = self.unify(&Ty::Int, &it, e.span, "W25", "in unary `-`");
                    proof {
                        lemma_infer_post_trans(old(self), &s1, self);
                    }
                    Ty::Int
                }
                other => {
                    let shown = self.show(&other);
                    self.report(Diag::new("W25", owned("unary `-` needs Int or Float"), e.span).actual(shown));
                    proof {
                        lemma_infer_post_trans(old(self), &s1, self);
                    }
                    Ty::Error
                }
            }
        } else {
            Ty::Error
        }
    }

    fn infer_propagate(&mut self, e: &Expr) -> (r: Ty)
        ensures
            final(self).infer_post(old(self)),
            e.kind is Propagate && not_result_operand(*old(self), *e.kind->Propagate_0) ==> reported_at(
                old(self).diags@.len() as int,
                final(self).diags@,
                "W26"@,
                e.kind->Propagate_0.span,
            ),
            e.kind is Propagate ==> propagate_checked(*old(self), final(self).diags@, e.span) && r@ is Var,
            e.kind is Propagate ==> propagate_ok_typed(*old(self), *e.kind->Propagate_0, final(self).st(), r@),
            e.kind is Propagate ==> propagate_err_checked(*old(self), *e.kind->Propagate_0, final(self).diags@, e.span),
        decreases *e, 1nat,
    {
        proof {
            lemma_infer_post_refl(self);
        }
        if let ExprKind::Propagate(inner) = &e.kind {
            let it = self.infer(inner, None);
            let ghost s1 = *self;
            let ok = self.fresh();
            let err = self.fresh();
            let want = Ty::Res(Box::new(ok.copy()), Box::new(err.copy()));
            let ghost su = *self;
            proof {
                if not_result_operand(*old(self), **inner) {
                    assert(shallow_spec(su.st(), it@) == it@);
                    assert(unify_top(su.st(), want@, it@) == Some(false));
                }
            }
            let _ = self.unify(&want, &it, inner.span, "W26", "(`?` needs a Result)");
            proof {
                if inner.kind is Var {
                    match name_type(*old(self), inner.kind->Var_0@) {
                        Some(TyV::Res(okt, et)) => {
                            if base_ty(*okt) {
                                let k = s1.vars@.len();
                                assert(it@ == TyV::Res(okt, et));
                                assert(want@ == TyV::Res(Box::new(TyV::Var(k)), Box::new(TyV::Var(k + 1))));
                                assert(su.st()[k as int] is None);
                                let okb = choose|okb: bool|
                                    #![trigger unify_step(okb, self.st())]
                                    unify_step(okb, self.st()) && unify_rel(su.st(), want@, it@, depth(), okb, self.st());
                                assert(su.st()[(k + 1) as int] is None);
                                lemma_res_unify_binds(su.st(), k, TyV::Var(k + 1), *okt, *et, okb, self.st());
                            }
                        },
                        _ => {},
                    }
                }
                assert(propagate_ok_typed(*old(self), **inner, self.st(), ok@));
                lemma_infer_post_trans(old(self), &s1, self);
                if not_result_operand(*old(self), **inner) {
                    assert(self.diags@[self.diags@.len() - 1].rule@ == "W26"@);
                    assert(reported_at(old(self).diags@.len() as int, self.diags@, "W26"@, inner.span));
                }
            }
            let ghost s2 = *self;
            if self.lambda_depth > 0 {
                self.report(
                    Diag::new("W26", owned("`?` cannot be used inside a lambda"), e.span).hint(
                        owned("`?` returns from the enclosing def; use a match here"),
                    ),
                );
                proof {
                    lemma_infer_post_trans(old(self), &s2, self);
                    assert(self.diags@[s2.diags@.len() as int].rule@ == "W26"@);
                    lemma_propagate_ok_extend(*old(self), **inner, s2.st(), self.st(), ok@);
                }
                return ok;
            }
            let cur = match &self.cur_ret {
                Some(r) => Some(r.copy()),
                None => None,
            };
            match cur {
                Some(ret) => {
                    let ghost a0 = *self;
                    let ru = self.fresh();
                    let ghost a1 = *self;
                    let want_ret = Ty::Res(Box::new(ru), Box::new(err));
                    let shown = self.show(&ret);
                    let unified = self.unify_raw(&want_ret, &ret);
                    let ghost a2 = *self;
                    proof {
                        if !(ret@ is Res) && !(ret@ is Var) && !(ret@ is Error) {
                            assert(shallow_spec(a1.st(), ret@) == ret@);
                            assert(unify_top(a1.st(), want_ret@, ret@) == Some(false));
                        }
                        if inner.kind is Var {
                            match (name_type(*old(self), inner.kind->Var_0@), ret@) {
                                (Some(TyV::Res(okt, et)), TyV::Res(o2, e2)) => {
                                    if base_ty(*okt) && base_ty(*et) && base_ty(*e2) && *e2 != *et {
                                        let k = s1.vars@.len();
                                        assert(s2.st()[(k + 1) as int] == Some(*et));
                                        assert(a0 == s2);
                                        assert(a1.st()[(k + 1) as int] == Some(*et));
                                        assert(want_ret@ == TyV::Res(Box::new(TyV::Var(a0.vars@.len())), Box::new(TyV::Var(k + 1))));
                                        lemma_res_err_mismatch(a1.st(), a0.vars@.len(), k + 1, *et, *o2, *e2, unified, a2.st());
                                    }
                                },
                                _ => {},
                            }
                        }
                    }
                    if !unified {
                        self.report(
                            Diag::new(
                                "W26",
                                owned("`?` requires the enclosing def to return a Result with the same Err type"),
                                e.span,
                            ).actual(shown),
                        );
                        proof {
                            assert(self.diags@[a2.diags@.len() as int].rule@ == "W26"@);
                        }
                    } else {
                        proof {
                            lemma_infer_post_refl(self);
                        }
                    }
                    proof {
                        lemma_infer_post_trans(&a0, &a1, &a2);
                        lemma_infer_post_trans(&a0, &a2, self);
                        lemma_infer_post_trans(old(self), &a0, self);
                        lemma_propagate_ok_extend(*old(self), **inner, s2.st(), self.st(), ok@);
                    }
                }
                None => {
                    let ghost a0 = *self;
                    self.report(Diag::new("W26", owned("`?` can only be used inside a function def that returns Result"), e.span));
                    proof {
                        lemma_infer_post_trans(old(self), &a0, self);
                        lemma_propagate_ok_extend(*old(self), **inner, s2.st(), self.st(), ok@);
                        assert(self.diags@[a0.diags@.len() as int].rule@ == "W26"@);
                    }
                }
            }
            ok
        } else {
            Ty::Error
        }
    }
}


impl<'a> Checker<'a> {
    /// Infer a field value against the type of the field of that name in
    /// `fs`, or report that the record has no such field.
    fn infer_field_value(&mut self, fs: &Vec<(String, Ty)>, fname: &String, fval: &Expr, e: &Expr, rule: &str, msg: String, cap_check: bool)
        requires
            decreases_to!(*e => *fval),
            body_rule_ids().contains(rule@),
        ensures
            final(self).infer_post(old(self)),
        decreases *e, 0nat,
    {
        proof {
            lemma_infer_post_refl(self);
        }
        match find_key(fs, fname.as_str()) {
            Some(k) => {
                let ft = fs[k].1.copy();
                let t = self.infer(fval, Some(&ft));
                if cap_check {
                    let ghost s1 = *self;
                    self.forbid_cap_value(&t, fval.span, "a record");
                    proof {
                        lemma_infer_post_trans(old(self), &s1, self);
                    }
                }
            }
            None => {
                self.report(Diag::new(rule, msg, e.span));
                let ghost s1 = *self;
                let _ = self.infer(fval, None);
                proof {
                    lemma_infer_post_trans(old(self), &s1, self);
                }
            }
        }
    }

    #[verifier::loop_isolation(false)]
    fn infer_record(&mut self, e: &Expr, expected: Option<&Ty>) -> (r: Ty)
        ensures
            final(self).infer_post(old(self)),
            e.kind is Record && e.kind->Record_spread is None ==> r@ is Rec,
        decreases *e, 1nat,
    {
        proof {
            lemma_infer_post_refl(self);
        }
        if let ExprKind::Record { spread, fields } = &e.kind {
            match spread {
                Some(base) => {
                    let bt = self.infer(base, None);
                    let resolved = self.resolve(&bt);
                    match resolved {
                        Ty::Rec(fs) => {
                            let mut i: usize = 0;
                            while i < fields.len()
                                invariant
                                    self.infer_post(old(self)),
                                decreases fields.len() - i,
                            {
                                let ghost s0 = *self;
                                proof {
                                    assert(decreases_to!(fields => fields@[i as int]));
                                    assert(decreases_to!(fields@[i as int] => fields@[i as int].1));
                                }
                                let fname = &fields[i].0;
                                let msg = cat3("`..` base record has no field `", fname.as_str(), "`");
                                self.infer_field_value(&fs, fname, &fields[i].1, e, "W11", msg, true);
                                proof {
                                    lemma_infer_post_trans(old(self), &s0, self);
                                }
                                i += 1;
                            }
                            Ty::Rec(fs)
                        }
                        Ty::Named(tyname) => {
                            if find_key(&self.nominals, tyname.as_str()).is_some() {
                                let ghost s0 = *self;
                                let mut msg = cat3("`", tyname.as_str(), "` is nominal; copy it with `");
                                push_str(&mut msg, tyname.as_str());
                                push_str(&mut msg, "{..base, ...}`");
                                self.report(
                                    Diag::new("W42", msg, e.span).hint(
                                        owned("nominal types keep their invariant checked at every copy"),
                                    ),
                                );
                                proof {
                                    lemma_infer_post_trans(old(self), &s0, self);
                                }
                                Ty::Error
                            } else {
                                let ghost s0 = *self;
                                let shown = self.show(&Ty::Named(tyname));
                                self.report(Diag::new("W11", owned("`..` requires a record"), e.span).actual(shown));
                                proof {
                                    lemma_infer_post_trans(old(self), &s0, self);
                                }
                                Ty::Error
                            }
                        }
                        Ty::Error => Ty::Error,
                        other => {
                            let ghost s0 = *self;
                            let shown = self.show(&other);
                            self.report(Diag::new("W11", owned("`..` requires a record"), e.span).actual(shown));
                            proof {
                                lemma_infer_post_trans(old(self), &s0, self);
                            }
                            Ty::Error
                        }
                    }
                }
                None => {
                    let exp_fields: Option<Vec<(String, Ty)>> = match expected {
                        Some(t) => match self.resolve(t) {
                            Ty::Rec(fs) => Some(fs),
                            _ => None,
                        },
                        None => None,
                    };
                    let mut out: Vec<(String, Ty)> = Vec::new();
                    let mut seen: Vec<String> = Vec::new();
                    let mut i: usize = 0;
                    while i < fields.len()
                        invariant
                            self.infer_post(old(self)),
                        decreases fields.len() - i,
                    {
                        let ghost s0 = *self;
                        proof {
                            assert(decreases_to!(fields => fields@[i as int]));
                            assert(decreases_to!(fields@[i as int] => fields@[i as int].1));
                        }
                        let fname = &fields[i].0;
                        let fval = &fields[i].1;
                        if contains_name(&seen, fname.as_str()) {
                            self.report(Diag::new("W11", cat3("duplicate field `", fname.as_str(), "`"), e.span));
                            proof {
                                lemma_infer_post_trans(old(self), &s0, self);
                            }
                            i += 1;
                            continue;
                        }
                        seen.push(copy_string(fname));
                        let exp_ft: Option<Ty> = match &exp_fields {
                            Some(fs) => match find_key(fs, fname.as_str()) {
                                Some(k) => Some(fs[k].1.copy()),
                                None => None,
                            },
                            None => None,
                        };
                        let t = match &exp_ft {
                            Some(ft) => self.infer(fval, Some(ft)),
                            None => self.infer(fval, None),
                        };
                        let ghost s1 = *self;
                        self.forbid_cap_value(&t, fval.span, "a record");
                        proof {
                            lemma_infer_post_trans(&s0, &s1, self);
                            lemma_infer_post_trans(old(self), &s0, self);
                        }
                        out.push((copy_string(fname), t));
                        i += 1;
                    }
                    Ty::Rec(sort_by_name(out))
                }
            }
        } else {
            Ty::Error
        }
    }

    #[verifier::loop_isolation(false)]
    fn infer_named_rec(&mut self, e: &Expr) -> (r: Ty)
        ensures
            final(self).infer_post(old(self)),
        decreases *e, 1nat,
    {
        proof {
            lemma_infer_post_refl(self);
        }
        if let ExprKind::NamedRec { name, spread, fields } = &e.kind {
            let n = name.as_str();
            let decl = match find_key(&self.nominals, n) {
                Some(k) => copy_fields(&self.nominals[k].1),
                None => {
                    let ghost s0 = *self;
                    if find_key(&self.variants, n).is_some() {
                        let mut msg = cat3("`", n, "` is a variant type; construct it with a variant, not `");
                        push_str(&mut msg, n);
                        push_str(&mut msg, "{...}`");
                        self.report(Diag::new("W12", msg, e.span));
                    } else {
                        self.report(Diag::new("W42", cat3("unknown nominal type `", n, "`"), e.span));
                    }
                    proof {
                        lemma_infer_post_trans(old(self), &s0, self);
                    }
                    let mut i: usize = 0;
                    while i < fields.len()
                        invariant
                            self.infer_post(old(self)),
                        decreases fields.len() - i,
                    {
                        let ghost s1 = *self;
                        proof {
                            assert(decreases_to!(fields => fields@[i as int]));
                            assert(decreases_to!(fields@[i as int] => fields@[i as int].1));
                        }
                        let _ = self.infer(&fields[i].1, None);
                        proof {
                            lemma_infer_post_trans(old(self), &s1, self);
                        }
                        i += 1;
                    }
                    return Ty::Error;
                }
            };
            match spread {
                Some(base) => {
                    let _ = self.infer(base, Some(&Ty::Named(copy_string(name))));
                    let mut i: usize = 0;
                    while i < fields.len()
                        invariant
                            self.infer_post(old(self)),
                        decreases fields.len() - i,
                    {
                        let ghost s0 = *self;
                        proof {
                            assert(decreases_to!(fields => fields@[i as int]));
                            assert(decreases_to!(fields@[i as int] => fields@[i as int].1));
                        }
                        let fname = &fields[i].0;
                        let mut msg = cat3("`", n, "` has no field `");
                        push_str(&mut msg, fname.as_str());
                        push_str(&mut msg, "`");
                        self.infer_field_value(&decl, fname, &fields[i].1, e, "W42", msg, false);
                        proof {
                            lemma_infer_post_trans(old(self), &s0, self);
                        }
                        i += 1;
                    }
                }
                None => {
                    let mut given: Vec<String> = Vec::new();
                    let mut i: usize = 0;
                    while i < fields.len()
                        invariant
                            self.infer_post(old(self)),
                        decreases fields.len() - i,
                    {
                        let ghost s0 = *self;
                        proof {
                            assert(decreases_to!(fields => fields@[i as int]));
                            assert(decreases_to!(fields@[i as int] => fields@[i as int].1));
                        }
                        let fname = &fields[i].0;
                        if contains_name(&given, fname.as_str()) {
                            self.report(Diag::new("W42", cat3("duplicate field `", fname.as_str(), "`"), e.span));
                            proof {
                                lemma_infer_post_trans(old(self), &s0, self);
                            }
                            i += 1;
                            continue;
                        }
                        given.push(copy_string(fname));
                        let mut msg = cat3("`", n, "` has no field `");
                        push_str(&mut msg, fname.as_str());
                        push_str(&mut msg, "`");
                        self.infer_field_value(&decl, fname, &fields[i].1, e, "W42", msg, false);
                        proof {
                            lemma_infer_post_trans(old(self), &s0, self);
                        }
                        i += 1;
                    }
                    let mut missing = String::new();
                    let mut count: usize = 0;
                    let mut j: usize = 0;
                    while j < decl.len()
                        invariant
                            self.infer_post(old(self)),
                        decreases decl.len() - j,
                    {
                        if !contains_name(&given, decl[j].0.as_str()) {
                            if count > 0 {
                                push_str(&mut missing, ", ");
                            }
                            push_str(&mut missing, decl[j].0.as_str());
                            count = 1;
                        }
                        j += 1;
                    }
                    if count > 0 {
                        let ghost s0 = *self;
                        let mut msg = cat3("`", n, "{...}` is missing field(s): ");
                        push_str(&mut msg, missing.as_str());
                        self.report(Diag::new("W42", msg, e.span));
                        proof {
                            lemma_infer_post_trans(old(self), &s0, self);
                        }
                    }
                }
            }
            Ty::Named(copy_string(name))
        } else {
            Ty::Error
        }
    }

    fn infer_field(&mut self, e: &Expr) -> (r: Ty)
        ensures
            final(self).infer_post(old(self)),
        decreases *e, 1nat,
    {
        proof {
            lemma_infer_post_refl(self);
        }
        if let ExprKind::Field(base, field) = &e.kind {
            let bt = self.infer(base, None);
            let ghost s0 = *self;
            let resolved = self.resolve(&bt);
            let f = field.as_str();
            let r = match resolved {
                Ty::Rec(fs) => match find_key(&fs, f) {
                    Some(k) => fs[k].1.copy(),
                    None => {
                        let shown = self.show(&bt);
                        self.report(Diag::new("W11", cat3("record has no field `", f, "`"), e.span).actual(shown));
                        Ty::Error
                    }
                },
                Ty::Named(tyname) => {
                    match find_key(&self.nominals, tyname.as_str()) {
                        Some(nk) => {
                            let fs = copy_fields(&self.nominals[nk].1);
                            match find_key(&fs, f) {
                                Some(k) => fs[k].1.copy(),
                                None => {
                                    let mut msg = cat3("`", tyname.as_str(), "` has no field `");
                                    push_str(&mut msg, f);
                                    push_str(&mut msg, "`");
                                    self.report(Diag::new("W42", msg, e.span));
                                    Ty::Error
                                }
                            }
                        }
                        None => {
                            let shown = self.show(&Ty::Named(tyname));
                            self.report(Diag::new("W11", cat3("`.", f, "` requires a record"), e.span).actual(shown));
                            Ty::Error
                        }
                    }
                }
                Ty::Error => Ty::Error,
                other => {
                    let shown = self.show(&other);
                    self.report(Diag::new("W11", cat3("`.", f, "` requires a record"), e.span).actual(shown));
                    Ty::Error
                }
            };
            proof {
                if self.diags@.len() == s0.diags@.len() {
                    lemma_infer_post_refl(self);
                }
                lemma_infer_post_trans(old(self), &s0, self);
            }
            r
        } else {
            Ty::Error
        }
    }

    #[verifier::loop_isolation(false)]
    fn infer_call(&mut self, e: &Expr) -> (r: Ty)
        ensures
            final(self).infer_post(old(self)),
            e.kind is Call ==> call_typed(*old(self), final(self).diags@, *e.kind->Call_0, e.kind->Call_1@.len(), e.span, r@),
        decreases *e, 1nat,
    {
        proof {
            lemma_infer_post_refl(self);
        }
        if let ExprKind::Call(callee, args) = &e.kind {
            let ct = self.infer(callee, None);
            let s = self.shallow(&ct);
            proof {
                if !(ct@ is Var) {
                    assert(s@ == ct@);
                }
            }
            match s {
                Ty::Fn(params, ret) => {
                    proof {
                        lemma_tys_view(params@);
                    }
                    if params.len() != args.len() {
                        let ghost s0 = *self;
                        let shown = self.show(&ct);
                        let msg = msg_num("call expects ", params.len(), " argument(s), got ");
                        let mut msg = msg;
                        let g = usize_text(args.len());
                        push_str(&mut msg, g.as_str());
                        self.report(Diag::new("W19", msg, e.span).expected(shown));
                        proof {
                            lemma_infer_post_trans(old(self), &s0, self);
                            assert(self.diags@[s0.diags@.len() as int].rule@ == "W19"@);
                        }
                        return *ret;
                    }
                    let mut i: usize = 0;
                    while i < args.len()
                        invariant
                            self.infer_post(old(self)),
                        decreases args.len() - i,
                    {
                        let ghost s0 = *self;
                        proof {
                            assert(decreases_to!(args => args@[i as int]));
                        }
                        let pt = params[i].copy();
                        let _ = self.infer(&args[i], Some(&pt));
                        proof {
                            lemma_infer_post_trans(old(self), &s0, self);
                        }
                        i += 1;
                    }
                    *ret
                }
                Ty::Error => Ty::Error,
                other => {
                    let ghost s0 = *self;
                    let shown = self.show(&other);
                    self.report(Diag::new("W19", owned("this expression is not callable"), callee.span).actual(shown));
                    proof {
                        lemma_infer_post_trans(old(self), &s0, self);
                    }
                    let mut i: usize = 0;
                    while i < args.len()
                        invariant
                            self.infer_post(old(self)),
                        decreases args.len() - i,
                    {
                        let ghost s1 = *self;
                        proof {
                            assert(decreases_to!(args => args@[i as int]));
                        }
                        let _ = self.infer(&args[i], None);
                        proof {
                            lemma_infer_post_trans(old(self), &s1, self);
                        }
                        i += 1;
                    }
                    Ty::Error
                }
            }
        } else {
            Ty::Error
        }
    }
}


impl<'a> Checker<'a> {
    fn bind_local(&mut self, name: &String, ty: Ty, is_cap: bool)
        ensures
            final(self).env@ == old(self).env@.push(final(self).env@.last()),
            final(self).diags == old(self).diags,
            final(self).vars == old(self).vars,
            final(self).env@.last().name@ == name@,
            final(self).env@.last().ty@ == ty@,
            final(self).env@.last().is_cap == is_cap,
            final(self).env@.last().lambda_depth == old(self).lambda_depth,
            final(self).bind_post(old(self)),
    {
        let b = Binding { name: copy_string(name), ty, is_cap, lambda_depth: self.lambda_depth };
        self.env.push(b);
        proof {
            lemma_seq_extends_refl(self.diags@);
            lemma_seq_extends_refl(self.holes@);
            assert(self.env@.subrange(0, old(self).env@.len() as int) =~= old(self).env@);
        }
    }

    /// Drops the bindings pushed since `mark`.
    fn restore_env(&mut self, mark: usize, o: Ghost<&Checker<'a>>)
        requires
            old(self).bind_post(o@),
            mark == o@.env@.len(),
        ensures
            final(self).infer_post(o@),
    {
        self.env.truncate(mark);
        proof {
            assert(self.env@ =~= old(self).env@.subrange(0, mark as int));
        }
    }

    #[verifier::loop_isolation(false)]
    fn infer_lambda(&mut self, e: &Expr, expected: Option<&Ty>) -> (r: Ty)
        ensures
            final(self).infer_post(old(self)),
            e.kind is Lambda ==> r@ is Fn && r@->Fn_0.len() == e.kind->params@.len(),
        decreases *e, 1nat,
    {
        proof {
            lemma_infer_post_refl(self);
        }
        if let ExprKind::Lambda { params, body } = &e.kind {
            let (exp_params, exp_ret): (Option<Vec<Ty>>, Option<Ty>) = match expected {
                Some(t) => match self.shallow(t) {
                    Ty::Fn(ps, r) => if ps.len() == params.len() {
                        (Some(ps), Some(*r))
                    } else {
                        (None, None)
                    },
                    _ => (None, None),
                },
                None => (None, None),
            };
            let mut ptys: Vec<Ty> = Vec::new();
            let mut i: usize = 0;
            while i < params.len()
                invariant
                    self.infer_post(old(self)),
                    i <= params@.len(),
                    ptys@.len() == i,
                    match &exp_params {
                        Some(eps) => eps@.len() == params@.len(),
                        None => true,
                    },
                decreases params.len() - i,
            {
                let ghost s0 = *self;
                let ty = match &params[i].1 {
                    Some(te) => {
                        let tparams = copy_names(&self.cur_tparams);
                        let mut seen: Vec<String> = Vec::new();
                        let t = self.conv_type(te, &tparams, false, &mut seen);
                        proof {
                            lemma_seq_extends_refl(self.holes@);
                        }
                        match &exp_params {
                            Some(eps) => {
                                let ghost s1 = *self;
                                let _ = self.unify(&eps[i], &t, e.span, "W20", "on a lambda parameter");
                                proof {
                                    lemma_infer_post_trans(&s0, &s1, self);
                                }
                            }
                            None => {}
                        }
                        t
                    }
                    None => match &exp_params {
                        Some(eps) => {
                            proof {
                                lemma_infer_post_refl(self);
                            }
                            eps[i].copy()
                        }
                        None => self.fresh(),
                    },
                };
                proof {
                    lemma_infer_post_trans(old(self), &s0, self);
                }
                ptys.push(ty);
                i += 1;
            }
            let ghost before = *self;
            let mark = self.env.len();
            let saved = self.lambda_depth;
            self.lambda_depth = if saved < usize::MAX { saved + 1 } else { saved };
            let ghost raised = *self;
            proof {
                lemma_infer_post_refl(self);
            }
            let mut k: usize = 0;
            while k < params.len()
                invariant
                    k <= params@.len(),
                    ptys@.len() == params@.len(),
                    self.bind_post(&raised),
                decreases params.len() - k,
            {
                let ghost s0 = *self;
                let t = ptys[k].copy();
                self.bind_local(&params[k].0, t, false);
                proof {
                    lemma_bind_post_trans(&raised, &s0, self);
                }
                k += 1;
            }
            let ghost pushed = *self;
            let rt = match exp_ret {
                Some(r) => {
                    let _ = self.infer(body, Some(&r));
                    r
                }
                None => self.infer(body, None),
            };
            proof {
                lemma_step_i(&raised, &pushed, self);
            }
            self.restore_env(mark, Ghost(&raised));
            self.lambda_depth = saved;
            proof {
                lemma_diags_extend_trans(old(self).diags@, before.diags@, self.diags@);
                lemma_seq_extends_trans(old(self).holes@, before.holes@, self.holes@);
                lemma_tys_view(ptys@);
            }
            Ty::Fn(ptys, Box::new(rt))
        } else {
            Ty::Error
        }
    }

    #[verifier::loop_isolation(false)]
    fn infer_block(&mut self, e: &Expr, expected: Option<&Ty>) -> (r: Ty)
        ensures
            final(self).infer_post(old(self)),
            e.kind is Block ==> infer_shape(e.kind, r@),
        decreases *e, 1nat,
    {
        proof {
            lemma_infer_post_refl(self);
        }
        let ghost start = *self;
        if let ExprKind::Block { lets, tail } = &e.kind {
            let mark = self.env.len();
            let mut i: usize = 0;
            while i < lets.len()
                invariant
                    self.bind_post(old(self)),
                    mark == old(self).env@.len(),
                decreases lets.len() - i,
            {
                let ghost s0 = *self;
                proof {
                    assert(decreases_to!(lets => lets@[i as int]));
                    assert(decreases_to!(lets@[i as int] => lets@[i as int].1));
                }
                let t = self.infer(&lets[i].1, None);
                let is_cap = match self.shallow(&t) {
                    Ty::Cap(_) => true,
                    _ => false,
                };
                let ghost s1 = *self;
                proof {
                    lemma_step_i(old(self), &s0, &s1);
                }
                self.bind_local(&lets[i].0, t, is_cap);
                proof {
                    lemma_bind_post_trans(old(self), &s1, self);
                }
                i += 1;
            }
            let ghost pushed = *self;
            let t = self.infer(tail, expected);
            proof {
                lemma_step_i(old(self), &pushed, self);
            }
            self.restore_env(mark, Ghost(&start));
            t
        } else {
            Ty::Error
        }
    }
}

/// A copy of a list of names.
pub fn copy_names(v: &Vec<String>) -> (r: Vec<String>)
    ensures
        r@.len() == v@.len(),
        forall|k: int| 0 <= k < v@.len() ==> (#[trigger] r@[k])@ == v@[k]@,
{
    let mut out: Vec<String> = Vec::new();
    let mut i: usize = 0;
    while i < v.len()
        invariant
            i <= v@.len(),
            out@.len() == i,
            forall|k: int| 0 <= k < i ==> (#[trigger] out@[k])@ == v@[k]@,
        decreases v.len() - i,
    {
        out.push(copy_string(&v[i]));
        i += 1;
    }
    out
}


impl<'a> Checker<'a> {
    #[verifier::loop_isolation(false)]
    fn infer_match(&mut self, e: &Expr, expected: Option<&Ty>) -> (r: Ty)
        ensures
            final(self).infer_post(old(self)),
        decreases *e, 1nat,
    {
        proof {
            lemma_infer_post_refl(self);
        }
        if let ExprKind::Match { scrutinee, arms } = &e.kind {
            let st = self.infer(scrutinee, None);
            let ghost s0 = *self;
            let result = match expected {
                Some(t) => {
                    proof {
                        lemma_infer_post_refl(self);
                    }
                    t.copy()
                }
                None => self.fresh(),
            };
            proof {
                lemma_infer_post_trans(old(self), &s0, self);
            }
            let mut i: usize = 0;
            while i < arms.len()
                invariant
                    self.infer_post(old(self)),
                decreases arms.len() - i,
            {
                let ghost s1 = *self;
                proof {
                    assert(decreases_to!(arms => arms@[i as int]));
                    assert(decreases_to!(arms@[i as int] => arms@[i as int].1));
                }
                let mark = self.env.len();
                self.check_pattern(&arms[i].0, &st);
                let ghost s2 = *self;
                let _ = self.infer(&arms[i].1, Some(&result));
                proof {
                    lemma_step_i(&s1, &s2, self);
                }
                self.restore_env(mark, Ghost(&s1));
                proof {
                    lemma_infer_post_trans(old(self), &s1, self);
                }
                i += 1;
            }
            let ghost s3 = *self;
            self.check_exhaustive(&st, arms, e.span);
            proof {
                lemma_infer_post_trans(old(self), &s3, self);
            }
            result
        } else {
            Ty::Error
        }
    }

    /// Infer an operand, then the other against it; both share one type.
    fn infer_pair(&mut self, l: &Expr, r: &Expr, e: &Expr) -> (t: Ty)
        requires
            decreases_to!(*e => *l),
            decreases_to!(*e => *r),
        ensures
            final(self).infer_post(old(self)),
            known_ty(*old(self), *l) is Some ==> t@ == known_ty(*old(self), *l)->0,
        decreases *e, 0nat,
    {
        let lt = self.infer(l, None);
        let ghost s0 = *self;
        let _ = self.infer(r, Some(&lt));
        proof {
            lemma_infer_post_trans(old(self), &s0, self);
        }
        lt
    }

    fn infer_bin(&mut self, e: &Expr) -> (r: Ty)
        ensures
            final(self).infer_post(old(self)),
            e.kind is Bin && (e.kind->Bin_0 == BinOp::And || e.kind->Bin_0 == BinOp::Or || e.kind->Bin_0
                == BinOp::Lt || e.kind->Bin_0 == BinOp::Le || e.kind->Bin_0 == BinOp::Gt || e.kind->Bin_0
                == BinOp::Ge || e.kind->Bin_0 == BinOp::Eq || e.kind->Bin_0 == BinOp::Ne) ==> r@ == TyV::Bool,
            e.kind is Bin ==> infer_shape(e.kind, r@),
            bin_operand_refused(*old(self), *e) ==> reported_at(old(self).diags@.len() as int, final(self).diags@, "W25"@, e.span),
        decreases *e, 1nat,
    {
        proof {
            lemma_infer_post_refl(self);
        }
        if let ExprKind::Bin(op, l, r) = &e.kind {
            match op {
                BinOp::And | BinOp::Or => {
                    let _ = self.infer(l, Some(&Ty::Bool));
                    let ghost s0 = *self;
                    let _ = self.infer(r, Some(&Ty::Bool));
                    proof {
                        lemma_infer_post_trans(old(self), &s0, self);
                    }
                    Ty::Bool
                }
                BinOp::Add | BinOp::Sub | BinOp::Mul | BinOp::Div | BinOp::Rem => {
                    let lt = self.infer_pair(l, r, e);
                    let ghost s0 = *self;
                    let out = match self.shallow(&lt) {
                        Ty::Int => Ty::Int,
                        Ty::Float => Ty::Float,
                        Ty::Error => Ty::Error,
                        Ty::Var(_) => {
                            let _ = self.unify(&Ty::Int, &lt, e.span, "W25", "in arithmetic");
                            Ty::Int
                        }
                        other => {
                            let shown = self.show(&other);
                            self.report(
                                Diag::new("W25", owned("arithmetic needs Int with Int or Float with Float"), e.span)
                                    .actual(shown)
                                    .hint(owned("there are no implicit conversions [W15]; use int_to_float / float_to_int")),
                            );
                            proof {
                                assert(self.diags@[s0.diags@.len() as int].rule@ == "W25"@);
                            }
                            Ty::Error
                        }
                    };
                    proof {
                        if self.diags@.len() == s0.diags@.len() && self.vars@.len() == s0.vars@.len() {
                            lemma_infer_post_refl(self);
                        }
                        lemma_infer_post_trans(old(self), &s0, self);
                    }
                    out
                }
                BinOp::Concat => {
                    let lt = self.infer_pair(l, r, e);
                    let ghost s0 = *self;
                    let out = match self.shallow(&lt) {
                        Ty::Text => Ty::Text,
                        Ty::List(x) => Ty::List(x),
                        Ty::Error => Ty::Error,
                        Ty::Var(_) => {
                            let _ = self.unify(&Ty::Text, &lt, e.span, "W25", "in `++`");
                            Ty::Text
                        }
                        other => {
                            let shown = self.show(&other);
                            self.report(
                                Diag::new("W25", owned("`++` concatenates Text with Text or List with List"), e.span)
                                    .actual(shown),
                            );
                            proof {
                                assert(self.diags@[s0.diags@.len() as int].rule@ == "W25"@);
                            }
                            Ty::Error
                        }
                    };
                    proof {
                        if self.diags@.len() == s0.diags@.len() && self.vars@.len() == s0.vars@.len() {
                            lemma_infer_post_refl(self);
                        }
                        lemma_infer_post_trans(old(self), &s0, self);
                    }
                    out
                }
                BinOp::Lt | BinOp::Le | BinOp::Gt | BinOp::Ge => {
                    let lt = self.infer_pair(l, r, e);
                    let ghost s0 = *self;
                    match self.shallow(&lt) {
                        Ty::Int | Ty::Float | Ty::Error => {
                            proof {
                                lemma_infer_post_refl(self);
                            }
                        }
                        Ty::Var(_) => {
                            let _ = self.unify(&Ty::Int, &lt, e.span, "W25", "in a comparison");
                        }
                        other => {
                            let shown = self.show(&other);
                            self.report(
                                Diag::new("W25", owned("ordering comparisons need Int or Float"), e.span).actual(shown),
                            );
                            proof {
                                assert(self.diags@[s0.diags@.len() as int].rule@ == "W25"@);
                            }
                        }
                    }
                    proof {
                        lemma_infer_post_trans(old(self), &s0, self);
                    }
                    Ty::Bool
                }
                BinOp::Eq | BinOp::Ne => {
                    let lt = self.infer_pair(l, r, e);
                    let ghost s0 = *self;
                    let resolved = self.resolve(&lt);
                    if contains_fn_or_cap(&resolved) {
                        let shown = self.show(&resolved);
                        self.report(
                            Diag::new("W14", owned("equality is not defined on function or capability types"), e.span)
                                .actual(shown),
                        );
                    } else {
                        proof {
                            lemma_infer_post_refl(self);
                        }
                    }
                    proof {
                        lemma_infer_post_trans(old(self), &s0, self);
                    }
                    Ty::Bool
                }
            }
        } else {
            Ty::Error
        }
    }
}


/// An inference step after a binding step still only extends the scope.
pub proof fn lemma_step_i<'a>(start: &Checker<'a>, s: &Checker<'a>, now: &Checker<'a>)
    requires
        s.bind_post(start),
        now.infer_post(s),
    ensures
        now.bind_post(start),
{
    lemma_seq_extends_refl(now.env@);
    lemma_diags_extend_trans(start.diags@, s.diags@, now.diags@);
    lemma_seq_extends_trans(start.holes@, s.holes@, now.holes@);
    assert(now.env@ == s.env@);
}

/// The store and the type a pattern's form is unified with, where its form
/// fixes one: `Some`/`None` an option of a fresh variable, `Ok`/`Err` a
/// result of two fresh variables, a declared constructor its owning type,
/// a list pattern a list of a fresh variable.
pub open spec fn pat_form<'a>(c: Checker<'a>, p: Pattern) -> Option<(Seq<Option<TyV>>, TyV)> {
    let st = c.st();
    let l = c.vars@.len();
    match p.kind {
        PatKind::Ctor(n, _) => if n@ == "Some"@ || n@ == "None"@ {
            Some((st.push(None), TyV::Opt(Box::new(TyV::Var(l)))))
        } else if n@ == "Ok"@ || n@ == "Err"@ {
            Some((st.push(None).push(None), TyV::Res(Box::new(TyV::Var(l)), Box::new(TyV::Var(l + 1)))))
        } else {
            match first_key(c.ctors@, n@) {
                Some(k) => Some((st, TyV::Named(c.ctors@[k].1.0@))),
                None => None,
            }
        },
        PatKind::List { .. } => Some((st.push(None), TyV::List(Box::new(TyV::Var(l))))),
        _ => None,
    }
}

/// The expected type cannot take the pattern's form: a mismatch [W23].
pub open spec fn pat_refused<'a>(c: Checker<'a>, p: Pattern, expected: TyV) -> bool {
    match pat_form(c, p) {
        Some((st, t)) => unify_top(st, expected, t) == Some(false),
        None => false,
    }
}

/// The type a literal pattern matches.
pub open spec fn lit_pat_type(k: PatKind) -> TyV {
    match k {
        PatKind::LitInt(_) => TyV::Int,
        PatKind::LitFloat(_) => TyV::Float,
        PatKind::LitBool(_) => TyV::Bool,
        _ => TyV::Text,
    }
}

/// The names in a scope, innermost last.
pub open spec fn env_names(env: Seq<Binding>) -> Seq<Seq<char>> {
    env.map_values(|b: Binding| b.name@)
}

/// The arity of the first declared constructor named `n`.
pub open spec fn ctor_arity(ctors: Seq<(String, (String, Vec<Ty>))>, n: Seq<char>) -> Option<nat>
    decreases ctors.len(),
{
    if ctors.len() == 0 {
        None
    } else if ctors[0].0@ == n {
        Some(ctors[0].1.1@.len())
    } else {
        ctor_arity(ctors.drop_first(), n)
    }
}

pub proof fn lemma_ctor_arity(ctors: Seq<(String, (String, Vec<Ty>))>, n: Seq<char>, k: int)
    requires
        0 <= k <= ctors.len(),
        forall|j: int| 0 <= j < k ==> (#[trigger] ctors[j]).0@ != n,
    ensures
        k < ctors.len() && ctors[k].0@ == n ==> ctor_arity(ctors, n) == Some(ctors[k].1.1@.len()),
        k == ctors.len() ==> ctor_arity(ctors, n) is None,
    decreases k,
{
    if k > 0 {
        assert(ctors[0].0@ != n);
        assert forall|j: int| 0 <= j < k - 1 implies (#[trigger] ctors.drop_first()[j]).0@ != n by {
            assert(ctors.drop_first()[j] == ctors[j + 1]);
        }
        lemma_ctor_arity(ctors.drop_first(), n, k - 1);
    }
}

/// The names a pattern binds, in order, given the declared constructors;
/// the sub-patterns of a constructor pattern bind only where the
/// constructor's arity fits.
pub open spec fn pat_binders(ctors: Seq<(String, (String, Vec<Ty>))>, p: Pattern) -> Seq<Seq<char>>
    decreases p, 1nat,
{
    match p.kind {
        PatKind::Bind(n) => seq![n@],
        PatKind::Ctor(n, subs) => if n@ == "Some"@ || n@ == "None"@ {
            if n@ == "Some"@ && subs@.len() == 1 {
                pat_binders(ctors, subs@[0])
            } else {
                seq![]
            }
        } else if n@ == "Ok"@ || n@ == "Err"@ {
            if subs@.len() == 1 {
                pat_binders(ctors, subs@[0])
            } else {
                seq![]
            }
        } else {
            match ctor_arity(ctors, n@) {
                Some(k) => if subs@.len() == k {
                    pats_binders(ctors, subs@)
                } else {
                    seq![]
                },
                None => seq![],
            }
        },
        PatKind::List { heads, rest } => pats_binders(ctors, heads@) + match rest {
            Some(b) => if b@ == "_"@ {
                seq![]
            } else {
                seq![b@]
            },
            None => seq![],
        },
        _ => seq![],
    }
}

/// The names a list of patterns binds, in order.
pub open spec fn pats_binders(ctors: Seq<(String, (String, Vec<Ty>))>, ps: Seq<Pattern>) -> Seq<Seq<char>>
    decreases ps, 0nat,
{
    if ps.len() == 0 {
        seq![]
    } else {
        pats_binders(ctors, ps.subrange(0, ps.len() - 1)) + pat_binders(ctors, ps[ps.len() - 1])
    }
}


/// The types in a scope, innermost last.
pub open spec fn env_types(env: Seq<Binding>) -> Seq<TyV> {
    env.map_values(|b: Binding| b.ty@)
}

/// The payload types of the first declared constructor named `n`.
pub open spec fn ctor_payload(ctors: Seq<(String, (String, Vec<Ty>))>, n: Seq<char>) -> Seq<TyV>
    decreases ctors.len(),
{
    if ctors.len() == 0 {
        seq![]
    } else if ctors[0].0@ == n {
        tys_view(ctors[0].1.1@)
    } else {
        ctor_payload(ctors.drop_first(), n)
    }
}

pub proof fn lemma_ctor_payload(ctors: Seq<(String, (String, Vec<Ty>))>, n: Seq<char>, k: int)
    requires
        0 <= k < ctors.len(),
        ctors[k].0@ == n,
        forall|j: int| 0 <= j < k ==> (#[trigger] ctors[j]).0@ != n,
    ensures
        ctor_payload(ctors, n) == tys_view(ctors[k].1.1@),
    decreases k,
{
    if k > 0 {
        assert forall|j: int| 0 <= j < k - 1 implies (#[trigger] ctors.drop_first()[j]).0@ != n by {
            assert(ctors.drop_first()[j] == ctors[j + 1]);
        }
        assert(ctors.drop_first()[k - 1] == ctors[k]);
        lemma_ctor_payload(ctors.drop_first(), n, k - 1);
    }
}

/// How many unification variables checking pattern `p` creates.
pub open spec fn pat_fresh(ctors: Seq<(String, (String, Vec<Ty>))>, p: Pattern) -> nat
    decreases p, 1nat,
{
    match p.kind {
        PatKind::Ctor(n, subs) => if n@ == "Some"@ || n@ == "None"@ {
            1 + if n@ == "Some"@ && subs@.len() == 1 {
                pat_fresh(ctors, subs@[0])
            } else {
                0nat
            }
        } else if n@ == "Ok"@ || n@ == "Err"@ {
            2 + if subs@.len() == 1 {
                pat_fresh(ctors, subs@[0])
            } else {
                0nat
            }
        } else {
            match ctor_arity(ctors, n@) {
                Some(k) => if subs@.len() == k {
                    pats_fresh(ctors, subs@)
                } else {
                    0nat
                },
                None => 0nat,
            }
        },
        PatKind::List { heads, .. } => 1 + pats_fresh(ctors, heads@),
        _ => 0nat,
    }
}

pub open spec fn pats_fresh(ctors: Seq<(String, (String, Vec<Ty>))>, ps: Seq<Pattern>) -> nat
    decreases ps, 0nat,
{
    if ps.len() == 0 {
        0
    } else {
        pats_fresh(ctors, ps.subrange(0, ps.len() - 1)) + pat_fresh(ctors, ps[ps.len() - 1])
    }
}

/// The types the names a pattern binds get, in order, when it is checked
/// against `t` with the next fresh variable numbered `l`: a name the
/// expected type; under `Some` a fresh variable (the option's element),
/// under `Ok`/`Err` the first/second of two fresh variables (the result's
/// parts), under a declared constructor its payload types in order, in a
/// list pattern a fresh variable (the element) for each head and its list
/// for the rest.
pub open spec fn pat_types(ctors: Seq<(String, (String, Vec<Ty>))>, p: Pattern, t: TyV, l: nat) -> Seq<TyV>
    decreases p, 1nat,
{
    match p.kind {
        PatKind::Bind(_) => seq![t],
        PatKind::Ctor(n, subs) => if n@ == "Some"@ || n@ == "None"@ {
            if n@ == "Some"@ && subs@.len() == 1 {
                pat_types(ctors, subs@[0], TyV::Var(l), l + 1)
            } else {
                seq![]
            }
        } else if n@ == "Ok"@ || n@ == "Err"@ {
            if subs@.len() == 1 {
                pat_types(ctors, subs@[0], if n@ == "Ok"@ { TyV::Var(l) } else { TyV::Var(l + 1) }, l + 2)
            } else {
                seq![]
            }
        } else {
            match ctor_arity(ctors, n@) {
                Some(k) => if subs@.len() == k {
                    pats_types(ctors, subs@, ctor_payload(ctors, n@), l)
                } else {
                    seq![]
                },
                None => seq![],
            }
        },
        PatKind::List { heads, rest } => pats_types_one(ctors, heads@, TyV::Var(l), l + 1) + match rest {
            Some(b) => if b@ == "_"@ {
                seq![]
            } else {
                seq![TyV::List(Box::new(TyV::Var(l)))]
            },
            None => seq![],
        },
        _ => seq![],
    }
}

/// Binder types of patterns checked against the types `ts` in order.
pub open spec fn pats_types(ctors: Seq<(String, (String, Vec<Ty>))>, ps: Seq<Pattern>, ts: Seq<TyV>, l: nat) -> Seq<TyV>
    decreases ps, 0nat,
{
    if ps.len() == 0 {
        seq![]
    } else {
        let init = ps.subrange(0, ps.len() - 1);
        pats_types(ctors, init, ts, l) + pat_types(ctors, ps[ps.len() - 1], ts[ps.len() - 1], l + pats_fresh(ctors, init))
    }
}

/// Binder types of patterns all checked against `t`.
pub open spec fn pats_types_one(ctors: Seq<(String, (String, Vec<Ty>))>, ps: Seq<Pattern>, t: TyV, l: nat) -> Seq<TyV>
    decreases ps, 0nat,
{
    if ps.len() == 0 {
        seq![]
    } else {
        let init = ps.subrange(0, ps.len() - 1);
        pats_types_one(ctors, init, t, l) + pat_types(ctors, ps[ps.len() - 1], t, l + pats_fresh(ctors, init))
    }
}

impl<'a> Checker<'a> {
    /// Check a pattern against the scrutinee type, binding its names.
    #[verifier::loop_isolation(false)]
    #[verifier::rlimit(80)]
    pub fn check_pattern(&mut self, pat: &Pattern, expected: &Ty)
        ensures
            final(self).bind_post(old(self)),
            env_names(final(self).env@) == env_names(old(self).env@) + pat_binders(old(self).ctors@, *pat),
            env_types(final(self).env@) == env_types(old(self).env@) + pat_types(old(self).ctors@, *pat, expected@, old(self).vars@.len()),
            final(self).vars@.len() == old(self).vars@.len() + pat_fresh(old(self).ctors@, *pat),
            pat_refused(*old(self), *pat, expected@) ==> reported_at(old(self).diags@.len() as int, final(self).diags@, "W23"@, pat.span),
            pat.kind is Ctor && !(pat.kind->Ctor_0@ == "Some"@ || pat.kind->Ctor_0@ == "None"@ || pat.kind->Ctor_0@ == "Ok"@
                || pat.kind->Ctor_0@ == "Err"@) && first_key(old(self).ctors@, pat.kind->Ctor_0@) is None ==> reported_at(
                old(self).diags@.len() as int,
                final(self).diags@,
                "W12"@,
                pat.span,
            ),
            pat.kind is Wildcard ==> final(self).env@ == old(self).env@ && final(self).diags@ == old(self).diags@
                && final(self).vars@ == old(self).vars@,
            pat.kind is Bind ==> final(self).env@.last().ty@ == expected@ && final(self).env@.last().is_cap == (
            shallow_spec(old(self).st(), expected@) is Cap) && final(self).diags@ == old(self).diags@
                && final(self).vars@ == old(self).vars@,
            pat.kind is LitInt || pat.kind is LitFloat || pat.kind is LitBool || pat.kind is LitText
                ==> (final(self).diags@ == old(self).diags@ <==> unify_top(old(self).st(), expected@, lit_pat_type(pat.kind))
                == Some(true)),
            pat.kind is LitInt || pat.kind is LitFloat || pat.kind is LitBool || pat.kind is LitText
                ==> final(self).env@ == old(self).env@ && (final(self).diags@ == old(self).diags@ || (
            final(self).diags@.len() == old(self).diags@.len() + 1 && mismatch_diag(
                final(self).diags@.last(),
                "W23"@,
                "in a pattern"@,
                pat.span,
                show_spec(final(self).st(), expected@, depth()),
                show_spec(final(self).st(), lit_pat_type(pat.kind), depth()),
            ))),
        decreases *pat,
    {
        proof {
            lemma_infer_post_refl(self);
            assert(env_names(self.env@) + seq![] =~= env_names(self.env@));
            assert(env_types(self.env@) + seq![] =~= env_types(self.env@));
        }
        let ghost l0 = self.vars@.len();
        match &pat.kind {
            PatKind::Wildcard => {}
            PatKind::Bind(name) => {
                let is_cap = match self.shallow(expected) {
                    Ty::Cap(_) => true,
                    _ => false,
                };
                self.bind_local(name, expected.copy(), is_cap);
                proof {
                    assert(env_names(self.env@) =~= env_names(old(self).env@).push(name@));
                    assert(env_types(self.env@) =~= env_types(old(self).env@).push(expected@));
                }
            }
            PatKind::LitInt(_) => {
                let _ = self.unify(expected, &Ty::Int, pat.span, "W23", "in a pattern");
                proof { lemma_step_i(old(self), old(self), self); }
            }
            PatKind::LitFloat(_) => {
                let _ = self.unify(expected, &Ty::Float, pat.span, "W23", "in a pattern");
                proof { lemma_step_i(old(self), old(self), self); }
            }
            PatKind::LitBool(_) => {
                let _ = self.unify(expected, &Ty::Bool, pat.span, "W23", "in a pattern");
                proof { lemma_step_i(old(self), old(self), self); }
            }
            PatKind::LitText(_) => {
                let _ = self.unify(expected, &Ty::Text, pat.span, "W23", "in a pattern");
                proof { lemma_step_i(old(self), old(self), self); }
            }
            PatKind::Ctor(name, subs) => {
                let n = name.as_str();
                if str_eq(n, "Some") || str_eq(n, "None") {
                    let inner = self.fresh();
                    proof { lemma_step_i(old(self), old(self), self); }
                    let ghost s0 = *self;
                    proof {
                        assert(s0.st() =~= old(self).st().push(None));
                    }
                    let _ = self.unify(expected, &Ty::Opt(Box::new(inner.copy())), pat.span, "W23", "in a pattern");
                    proof { lemma_step_i(old(self), &s0, self); }
                    let ghost s1 = *self;
                    proof {
                        assert(s1.env@ == old(self).env@);
                        if pat_refused(*old(self), *pat, expected@) {
                            assert(s1.diags@[s1.diags@.len() - 1].rule@ == "W23"@);
                            assert(reported_at(old(self).diags@.len() as int, s1.diags@, "W23"@, pat.span));
                        }
                    }
                    proof {
                        assert(s1.vars@.len() == l0 + 1);
                        assert(inner@ == TyV::Var(l0));
                    }
                    if str_eq(n, "Some") {
                        if subs.len() == 1 {
                            self.check_pattern(&subs[0], &inner);
                            proof { lemma_bind_post_trans(old(self), &s1, self); }
                        } else {
                            self.report(Diag::new("W23", owned("`Some` pattern takes exactly one sub-pattern"), pat.span));
                            proof { lemma_step_i(old(self), &s1, self); }
                        }
                    } else if subs.len() > 0 {
                        self.report(Diag::new("W23", owned("`None` pattern takes no sub-patterns"), pat.span));
                        proof { lemma_step_i(old(self), &s1, self); }
                    } else {
                        proof { assert(self.diags@.subrange(0, self.diags@.len() as int) =~= self.diags@); }
                    }
                    proof {
                        if pat_refused(*old(self), *pat, expected@) {
                            lemma_reported_extend(old(self).diags@.len() as int, s1.diags@, self.diags@, "W23"@, pat.span);
                        }
                    }
                } else if str_eq(n, "Ok") || str_eq(n, "Err") {
                    let a = self.fresh();
                    proof { lemma_step_i(old(self), old(self), self); }
                    let ghost s0 = *self;
                    let b = self.fresh();
                    proof { lemma_step_i(old(self), &s0, self); }
                    let ghost s1 = *self;
                    proof {
                        assert(s1.st() =~= old(self).st().push(None).push(None));
                    }
                    let want = Ty::Res(Box::new(a.copy()), Box::new(b.copy()));
                    let _ = self.unify(expected, &want, pat.span, "W23", "in a pattern");
                    proof { lemma_step_i(old(self), &s1, self); }
                    let ghost s2 = *self;
                    proof {
                        assert(s2.env@ == old(self).env@);
                        if pat_refused(*old(self), *pat, expected@) {
                            assert(s2.diags@[s2.diags@.len() - 1].rule@ == "W23"@);
                            assert(reported_at(old(self).diags@.len() as int, s2.diags@, "W23"@, pat.span));
                        }
                    }
                    proof {
                        assert(s2.vars@.len() == l0 + 2);
                        assert(a@ == TyV::Var(l0));
                        assert(b@ == TyV::Var(l0 + 1));
                    }
                    let inner = if str_eq(n, "Ok") { a } else { b };
                    if subs.len() == 1 {
                        self.check_pattern(&subs[0], &inner);
                        proof { lemma_bind_post_trans(old(self), &s2, self); }
                    } else {
                        self.report(Diag::new("W23", cat3("`", n, "` pattern takes exactly one sub-pattern"), pat.span));
                        proof { lemma_step_i(old(self), &s2, self); }
                    }
                    proof {
                        if pat_refused(*old(self), *pat, expected@) {
                            lemma_reported_extend(old(self).diags@.len() as int, s2.diags@, self.diags@, "W23"@, pat.span);
                        }
                    }
                } else {
                    match find_key(&self.ctors, n) {
                        Some(k) => {
                            proof {
                                lemma_ctor_arity(self.ctors@, n@, k as int);
                            }
                            let tyname = copy_string(&self.ctors[k].1.0);
                            let payload = copy_tys(&self.ctors[k].1.1);
                            let ghost pv = ctor_payload(old(self).ctors@, n@);
                            proof {
                                lemma_ctor_payload(old(self).ctors@, n@, k as int);
                                lemma_tys_view(self.ctors@[k as int].1.1@);
                                lemma_tys_view(payload@);
                            }
                            let _ = self.unify(expected, &Ty::Named(tyname), pat.span, "W23", "in a pattern");
                            proof { lemma_step_i(old(self), old(self), self); }
                            let ghost s0 = *self;
                            proof {
                                assert(s0.env@ == old(self).env@);
                                lemma_first_key(old(self).ctors@, n@, k as int);
                                if pat_refused(*old(self), *pat, expected@) {
                                    assert(s0.diags@[s0.diags@.len() - 1].rule@ == "W23"@);
                                    assert(reported_at(old(self).diags@.len() as int, s0.diags@, "W23"@, pat.span));
                                }
                            }
                            if subs.len() != payload.len() {
                                let mut msg = cat3("`", n, "` pattern takes ");
                                let w = usize_text(payload.len());
                                push_str(&mut msg, w.as_str());
                                push_str(&mut msg, " sub-pattern(s), got ");
                                let g = usize_text(subs.len());
                                push_str(&mut msg, g.as_str());
                                self.report(Diag::new("W23", msg, pat.span));
                                proof {
                                    if pat_refused(*old(self), *pat, expected@) {
                                        lemma_reported_extend(old(self).diags@.len() as int, s0.diags@, self.diags@, "W23"@, pat.span);
                                    }
                                    lemma_step_i(old(self), &s0, self);
                                    assert(self.env@ == old(self).env@);
                                    assert(env_names(self.env@) == env_names(old(self).env@) + seq![]);
                                }
                            } else {
                                let mut i: usize = 0;
                                proof {
                                    assert(subs@.subrange(0, 0) =~= Seq::<Pattern>::empty());
                                }
                                while i < subs.len()
                                    invariant
                                        i <= subs@.len(),
                                        self.bind_post(old(self)),
                                        pat_refused(*old(self), *pat, expected@) ==> reported_at(old(self).diags@.len() as int, self.diags@, "W23"@, pat.span),
                                        subs@.len() == payload@.len(),
                                        env_names(self.env@) == env_names(old(self).env@) + pats_binders(
                                            old(self).ctors@,
                                            subs@.subrange(0, i as int),
                                        ),
                                        env_types(self.env@) == env_types(old(self).env@) + pats_types(
                                            old(self).ctors@,
                                            subs@.subrange(0, i as int),
                                            pv,
                                            l0,
                                        ),
                                        self.vars@.len() == l0 + pats_fresh(old(self).ctors@, subs@.subrange(0, i as int)),
                                        pv.len() == payload@.len(),
                                        forall|j: int| 0 <= j < payload@.len() ==> #[trigger] pv[j] == payload@[j]@,
                                    decreases subs.len() - i,
                                {
                                    let ghost s1 = *self;
                                    proof {
                                        assert(decreases_to!(subs => subs@[i as int]));
                                        assert(subs@.subrange(0, i + 1).subrange(0, i as int) =~= subs@.subrange(0, i as int));
                                    }
                                    self.check_pattern(&subs[i], &payload[i]);
                                    proof {
                                        let pre = subs@.subrange(0, i + 1);
                                        assert(pre.subrange(0, pre.len() - 1) =~= subs@.subrange(0, i as int));
                                        assert(pre[pre.len() - 1] == subs@[i as int]);
                                        assert(env_types(self.env@) =~= env_types(old(self).env@) + pats_types(
                                            old(self).ctors@,
                                            pre,
                                            pv,
                                            l0,
                                        ));
                                        if pat_refused(*old(self), *pat, expected@) {
                                            lemma_reported_extend(old(self).diags@.len() as int, s1.diags@, self.diags@, "W23"@, pat.span);
                                        }
                                        lemma_bind_post_trans(old(self), &s1, self);
                                        assert(env_names(self.env@) =~= env_names(old(self).env@) + pats_binders(
                                            old(self).ctors@,
                                            subs@.subrange(0, i + 1),
                                        ));
                                    }
                                    i += 1;
                                }
                                proof {
                                    assert(subs@.subrange(0, subs@.len() as int) =~= subs@);
                                    assert(env_names(self.env@) == env_names(old(self).env@) + pats_binders(old(self).ctors@, subs@));
                                }
                            }

                        }
                        None => {
                            proof {
                                lemma_ctor_arity(self.ctors@, n@, self.ctors@.len() as int);
                                lemma_first_key(self.ctors@, n@, self.ctors@.len() as int);
                            }
                            let _ = self.report_err("W12", cat3("unknown variant `", n, "` in pattern"), pat.span);
                            proof {
                                lemma_step_i(old(self), old(self), self);
                                assert(self.diags@[self.diags@.len() - 1].rule@ == "W12"@);
                            }
                        }
                    }
                }
            }
            PatKind::List { heads, rest } => {
                let elem = self.fresh();
                proof { lemma_step_i(old(self), old(self), self); }
                let ghost s0 = *self;
                proof {
                    assert(s0.st() =~= old(self).st().push(None));
                }
                let _ = self.unify(expected, &Ty::List(Box::new(elem.copy())), pat.span, "W23", "in a pattern");
                proof {
                    lemma_step_i(old(self), &s0, self);
                    if pat_refused(*old(self), *pat, expected@) {
                        assert(self.diags@[self.diags@.len() - 1].rule@ == "W23"@);
                        assert(reported_at(old(self).diags@.len() as int, self.diags@, "W23"@, pat.span));
                    }
                }
                let mut i: usize = 0;
                proof {
                    assert(heads@.subrange(0, 0) =~= Seq::<Pattern>::empty());
                }
                while i < heads.len()
                    invariant
                        i <= heads@.len(),
                        self.bind_post(old(self)),
                        pat_refused(*old(self), *pat, expected@) ==> reported_at(old(self).diags@.len() as int, self.diags@, "W23"@, pat.span),
                        env_names(self.env@) == env_names(old(self).env@) + pats_binders(
                            old(self).ctors@,
                            heads@.subrange(0, i as int),
                        ),
                        env_types(self.env@) == env_types(old(self).env@) + pats_types_one(
                            old(self).ctors@,
                            heads@.subrange(0, i as int),
                            TyV::Var(l0),
                            l0 + 1,
                        ),
                        self.vars@.len() == l0 + 1 + pats_fresh(old(self).ctors@, heads@.subrange(0, i as int)),
                        elem@ == TyV::Var(l0),
                    decreases heads.len() - i,
                {
                    let ghost s1 = *self;
                    proof {
                        assert(decreases_to!(heads => heads@[i as int]));
                        assert(heads@.subrange(0, i + 1).subrange(0, i as int) =~= heads@.subrange(0, i as int));
                    }
                    self.check_pattern(&heads[i], &elem);
                    proof {
                        let pre = heads@.subrange(0, i + 1);
                        assert(pre.subrange(0, pre.len() - 1) =~= heads@.subrange(0, i as int));
                        assert(pre[pre.len() - 1] == heads@[i as int]);
                        assert(env_types(self.env@) =~= env_types(old(self).env@) + pats_types_one(
                            old(self).ctors@,
                            pre,
                            TyV::Var(l0),
                            l0 + 1,
                        ));
                        if pat_refused(*old(self), *pat, expected@) {
                            lemma_reported_extend(old(self).diags@.len() as int, s1.diags@, self.diags@, "W23"@, pat.span);
                        }
                        lemma_bind_post_trans(old(self), &s1, self);
                        assert(env_names(self.env@) =~= env_names(old(self).env@) + pats_binders(
                            old(self).ctors@,
                            heads@.subrange(0, i + 1),
                        ));
                    }
                    i += 1;
                }
                proof {
                    assert(heads@.subrange(0, heads@.len() as int) =~= heads@);
                    reveal_strlit("_");
                }
                if let Some(binder) = rest {
                    if !str_eq(binder.as_str(), "_") {
                        let ghost s2 = *self;
                        self.bind_local(binder, Ty::List(Box::new(elem)), false);
                        proof {
                            assert(env_types(self.env@) =~= env_types(s2.env@).push(TyV::List(Box::new(TyV::Var(l0)))));
                            if pat_refused(*old(self), *pat, expected@) {
                                lemma_reported_extend(old(self).diags@.len() as int, s2.diags@, self.diags@, "W23"@, pat.span);
                            }
                            lemma_bind_post_trans(old(self), &s2, self);
                            assert(env_names(self.env@) =~= env_names(s2.env@).push(binder@));
                        }
                    }
                }
            }
        }
    }

}


/// Whether an expression contains a typed hole anywhere.
pub open spec fn has_hole(e: Expr) -> bool
    decreases e, 1nat,
{
    match e.kind {
        ExprKind::Hole(_) => true,
        ExprKind::Int(_) | ExprKind::Float(_) | ExprKind::Bool(_) | ExprKind::Text(_) | ExprKind::Unit
        | ExprKind::Var(_) => false,
        ExprKind::List(es) => exprs_have_hole(es@),
        ExprKind::Ctor(_, es) => exprs_have_hole(es@),
        ExprKind::Record { spread, fields } => (match spread {
            Some(b) => has_hole(*b),
            None => false,
        }) || fields_have_hole(fields@),
        ExprKind::NamedRec { spread, fields, .. } => (match spread {
            Some(b) => has_hole(*b),
            None => false,
        }) || fields_have_hole(fields@),
        ExprKind::Field(b, _) => has_hole(*b),
        ExprKind::Call(c, args) => has_hole(*c) || exprs_have_hole(args@),
        ExprKind::Lambda { body, .. } => has_hole(*body),
        ExprKind::Block { lets, tail } => fields_have_hole(lets@) || has_hole(*tail),
        ExprKind::If { cond, then, els } => has_hole(*cond) || has_hole(*then) || has_hole(*els),
        ExprKind::Match { scrutinee, arms } => has_hole(*scrutinee) || arms_have_hole(arms@),
        ExprKind::Bin(_, l, r) => has_hole(*l) || has_hole(*r),
        ExprKind::NotOp(i) => has_hole(*i),
        ExprKind::NegOp(i) => has_hole(*i),
        ExprKind::Propagate(i) => has_hole(*i),
    }
}

pub open spec fn exprs_have_hole(es: Seq<Expr>) -> bool
    decreases es, 0nat,
{
    if es.len() == 0 {
        false
    } else {
        has_hole(es[0]) || exprs_have_hole(es.subrange(1, es.len() as int))
    }
}

pub open spec fn fields_have_hole(fs: Seq<(String, Expr)>) -> bool
    decreases fs, 0nat,
{
    if fs.len() == 0 {
        false
    } else {
        has_hole(fs[0].1) || fields_have_hole(fs.subrange(1, fs.len() as int))
    }
}

pub open spec fn arms_have_hole(arms: Seq<(Pattern, Expr)>) -> bool
    decreases arms, 0nat,
{
    if arms.len() == 0 {
        false
    } else {
        has_hole(arms[0].1) || arms_have_hole(arms.subrange(1, arms.len() as int))
    }
}

pub fn contains_hole(e: &Expr) -> (r: bool)
    ensures
        r == has_hole(*e),
    decreases *e, 1nat,
{
    match &e.kind {
        ExprKind::Hole(_) => true,
        ExprKind::Int(_) | ExprKind::Float(_) | ExprKind::Bool(_) | ExprKind::Text(_) | ExprKind::Unit
        | ExprKind::Var(_) => false,
        ExprKind::List(es) => exprs_contain_hole(es),
        ExprKind::Ctor(_, es) => exprs_contain_hole(es),
        ExprKind::Record { spread, fields } => (match spread {
            Some(b) => contains_hole(b),
            None => false,
        }) || fields_contain_hole(fields),
        ExprKind::NamedRec { spread, fields, .. } => (match spread {
            Some(b) => contains_hole(b),
            None => false,
        }) || fields_contain_hole(fields),
        ExprKind::Field(b, _) => contains_hole(b),
        ExprKind::Call(c, args) => contains_hole(c) || exprs_contain_hole(args),
        ExprKind::Lambda { body, .. } => contains_hole(body),
        ExprKind::Block { lets, tail } => fields_contain_hole(lets) || contains_hole(tail),
        ExprKind::If { cond, then, els } => contains_hole(cond) || contains_hole(then) || contains_hole(els),
        ExprKind::Match { scrutinee, arms } => contains_hole(scrutinee) || arms_contain_hole(arms),
        ExprKind::Bin(_, l, r) => contains_hole(l) || contains_hole(r),
        ExprKind::NotOp(i) | ExprKind::NegOp(i) | ExprKind::Propagate(i) => contains_hole(i),
    }
}

fn exprs_contain_hole(es: &Vec<Expr>) -> (r: bool)
    ensures
        r == exprs_have_hole(es@),
    decreases es@, 0nat,
{
    let mut i: usize = 0;
    assert(es@.subrange(0, es@.len() as int) =~= es@);
    while i < es.len()
        invariant
            i <= es@.len(),
            exprs_have_hole(es@) == exprs_have_hole(es@.subrange(i as int, es@.len() as int)),
        decreases es.len() - i,
    {
        let ghost rest = es@.subrange(i as int, es@.len() as int);
        proof {
            assert(decreases_to!(es@ => es@[i as int]));
            assert(rest[0] == es@[i as int]);
            assert(rest.subrange(1, rest.len() as int) =~= es@.subrange(i + 1, es@.len() as int));
        }
        if contains_hole(&es[i]) {
            return true;
        }
        i += 1;
    }
    false
}

fn fields_contain_hole(fs: &Vec<(String, Expr)>) -> (r: bool)
    ensures
        r == fields_have_hole(fs@),
    decreases fs@, 0nat,
{
    let mut i: usize = 0;
    assert(fs@.subrange(0, fs@.len() as int) =~= fs@);
    while i < fs.len()
        invariant
            i <= fs@.len(),
            fields_have_hole(fs@) == fields_have_hole(fs@.subrange(i as int, fs@.len() as int)),
        decreases fs.len() - i,
    {
        let ghost rest = fs@.subrange(i as int, fs@.len() as int);
        proof {
            assert(decreases_to!(fs@ => fs@[i as int]));
            assert(decreases_to!(fs@[i as int] => fs@[i as int].1));
            assert(rest[0] == fs@[i as int]);
            assert(rest.subrange(1, rest.len() as int) =~= fs@.subrange(i + 1, fs@.len() as int));
        }
        if contains_hole(&fs[i].1) {
            return true;
        }
        i += 1;
    }
    false
}

fn arms_contain_hole(arms: &Vec<(Pattern, Expr)>) -> (r: bool)
    ensures
        r == arms_have_hole(arms@),
    decreases arms@, 0nat,
{
    let mut i: usize = 0;
    assert(arms@.subrange(0, arms@.len() as int) =~= arms@);
    while i < arms.len()
        invariant
            i <= arms@.len(),
            arms_have_hole(arms@) == arms_have_hole(arms@.subrange(i as int, arms@.len() as int)),
        decreases arms.len() - i,
    {
        let ghost rest = arms@.subrange(i as int, arms@.len() as int);
        proof {
            assert(decreases_to!(arms@ => arms@[i as int]));
            assert(decreases_to!(arms@[i as int] => arms@[i as int].1));
            assert(rest[0] == arms@[i as int]);
            assert(rest.subrange(1, rest.len() as int) =~= arms@.subrange(i + 1, arms@.len() as int));
        }
        if contains_hole(&arms[i].1) {
            return true;
        }
        i += 1;
    }
    false
}

pub open spec fn item_span_spec(i: Item) -> Span {
    match i {
        Item::TypeDef(t) => t.span,
        Item::Def(d) => d.span,
        Item::Test(t) => t.span,
    }
}

pub fn item_span(i: &Item) -> (r: Span)
    ensures
        r == item_span_spec(*i),
{
    match i {
        Item::TypeDef(t) => t.span,
        Item::Def(d) => d.span,
        Item::Test(t) => t.span,
    }
}

/// Number of `def` items.
pub open spec fn count_defs(items: Seq<Item>) -> nat
    decreases items.len(),
{
    if items.len() == 0 {
        0
    } else {
        count_defs(items.drop_last()) + if items.last() is Def { 1nat } else { 0nat }
    }
}

/// Number of `test` items.
pub open spec fn count_tests(items: Seq<Item>) -> nat
    decreases items.len(),
{
    if items.len() == 0 {
        0
    } else {
        count_tests(items.drop_last()) + if items.last() is Test { 1nat } else { 0nat }
    }
}

/// Some item is a `def` with this name.
pub open spec fn def_named(items: Seq<Item>, name: Seq<char>) -> bool {
    exists|j: int| 0 <= j < items.len() && (#[trigger] items[j]) is Def && items[j]->Def_0.name@ == name
}

/// Some item is a `def` named `main`.
pub open spec fn has_main_def(items: Seq<Item>) -> bool {
    exists|k: int| 0 <= k < items.len() && (#[trigger] items[k]) is Def && items[k]->Def_0.name@ == "main"@
}

/// The W8 diagnostic for a program without an entry point.
pub open spec fn no_main_diag(d: Diag) -> bool {
    d.rule@ == "W8"@ && d.message@ == "program has no entry point"@
}


/// Item `it` is a type named `n`.
pub open spec fn is_type_named(it: Item, n: Seq<char>) -> bool {
    it is TypeDef && it->TypeDef_0.name@ == n
}

/// Item `it` is a def named `n`.
pub open spec fn is_def_named(it: Item, n: Seq<char>) -> bool {
    it is Def && it->Def_0.name@ == n
}

/// Item `i` repeats a top-level name: a type named like an earlier type, or
/// a def named like any type or like an earlier def (types are declared
/// before defs).
pub open spec fn repeats_name(items: Seq<Item>, i: int) -> bool {
    match items[i] {
        Item::TypeDef(t) => exists|j: int| 0 <= j < i && #[trigger] is_type_named(items[j], t.name@),
        Item::Def(d) => (exists|j: int| 0 <= j < items.len() && #[trigger] is_type_named(items[j], d.name@)) || (exists|
            j: int,
        | 0 <= j < i && #[trigger] is_def_named(items[j], d.name@)),
        Item::Test(_) => false,
    }
}

/// The name of a top-level form.
pub open spec fn top_name(it: Item) -> Seq<char> {
    match it {
        Item::TypeDef(t) => t.name@,
        Item::Def(d) => d.name@,
        Item::Test(t) => t.name@,
    }
}

/// The W7 diagnostic for a repeated top-level name `n` at `span`.
pub open spec fn dup_diag(d: Diag, n: Seq<char>, span: Span) -> bool {
    &&& d.rule@ == "W7"@
    &&& d.message@ == "duplicate top-level name `"@ + n + "`"@
    &&& d.span == span
}

/// Each type (or def, as `types` says) among the first `upto` items that
/// repeats a name has its diagnostic in `ds`, at or after `lo`.
pub open spec fn dups_reported(items: Seq<Item>, ds: Seq<Diag>, lo: int, upto: int, types: bool) -> bool {
    forall|i: int|
        0 <= i < upto && (if types {
            items[i] is TypeDef
        } else {
            items[i] is Def
        }) && #[trigger] repeats_name(items, i) ==> exists|k: int|
            lo <= k < ds.len() && #[trigger] dup_diag(ds[k], top_name(items[i]), item_span_spec(items[i]))
}

pub proof fn lemma_dups_extend(items: Seq<Item>, d1: Seq<Diag>, d2: Seq<Diag>, lo: int, upto: int, types: bool)
    requires
        0 <= lo,
        dups_reported(items, d1, lo, upto, types),
        d1.len() <= d2.len(),
        d2.subrange(0, d1.len() as int) == d1,
    ensures
        dups_reported(items, d2, lo, upto, types),
{
    assert forall|i: int|
        0 <= i < upto && (if types {
            items[i] is TypeDef
        } else {
            items[i] is Def
        }) && #[trigger] repeats_name(items, i) implies exists|k: int|
        lo <= k < d2.len() && #[trigger] dup_diag(d2[k], top_name(items[i]), item_span_spec(items[i])) by {
        assert(exists|k: int| lo <= k < d1.len() && #[trigger] dup_diag(d1[k], top_name(items[i]), item_span_spec(items[i])));
        let k = choose|k: int| lo <= k < d1.len() && #[trigger] dup_diag(d1[k], top_name(items[i]), item_span_spec(items[i]));
        assert(d2.subrange(0, d1.len() as int)[k] == d2[k]);
        assert(dup_diag(d2[k], top_name(items[i]), item_span_spec(items[i])));
    }
}

pub proof fn lemma_dups_upto(items: Seq<Item>, ds: Seq<Diag>, lo: int, upto: int, types: bool)
    requires
        0 <= upto < items.len(),
        dups_reported(items, ds, lo, upto, types),
        (if types {
            items[upto] is TypeDef
        } else {
            items[upto] is Def
        }) && repeats_name(items, upto) ==> exists|k: int|
            lo <= k < ds.len() && #[trigger] dup_diag(ds[k], top_name(items[upto]), item_span_spec(items[upto])),
    ensures
        dups_reported(items, ds, lo, upto + 1, types),
{
}

/// The texts of a list of strings, as a set.
pub open spec fn str_set(v: Seq<String>) -> Set<Seq<char>> {
    Set::new(|n: Seq<char>| exists|m: int| 0 <= m < v.len() && v[m]@ == n)
}

/// The names of the types among the first `upto` items.
pub open spec fn type_names_before(items: Seq<Item>, upto: int) -> Set<Seq<char>> {
    Set::new(|n: Seq<char>| exists|j: int| 0 <= j < upto && #[trigger] is_type_named(items[j], n))
}

/// The names of the defs among the first `upto` items.
pub open spec fn def_names_before(items: Seq<Item>, upto: int) -> Set<Seq<char>> {
    Set::new(|n: Seq<char>| exists|j: int| 0 <= j < upto && #[trigger] is_def_named(items[j], n))
}

pub proof fn lemma_str_set_push(v: Seq<String>, x: String)
    ensures
        str_set(v.push(x)) == str_set(v).insert(x@),
{
    assert forall|n: Seq<char>| #[trigger] str_set(v.push(x)).contains(n) == str_set(v).insert(x@).contains(n) by {
        if str_set(v).contains(n) {
            let m = choose|m: int| 0 <= m < v.len() && v[m]@ == n;
            assert(v.push(x)[m] == v[m]);
        }
        if n == x@ {
            assert(v.push(x)[v.len() as int] == x);
        }
        if str_set(v.push(x)).contains(n) {
            let m = choose|m: int| 0 <= m < v.push(x).len() && v.push(x)[m]@ == n;
            if m < v.len() {
                assert(v.push(x)[m] == v[m]);
            }
        }
    }
    assert(str_set(v.push(x)) =~= str_set(v).insert(x@));
}

/// The names an entry list is keyed by.
pub open spec fn keys_of<T>(v: Seq<(String, T)>) -> Seq<Seq<char>> {
    v.map_values(|e: (String, T)| e.0@)
}

pub proof fn lemma_keys_of<T>(v: Seq<(String, T)>, n: Seq<char>)
    ensures
        keys_of(v).contains(n) <==> exists|j: int| 0 <= j < v.len() && (#[trigger] v[j]).0@ == n,
{
    if keys_of(v).contains(n) {
        let j = choose|j: int| 0 <= j < keys_of(v).len() && keys_of(v)[j] == n;
        assert(v[j].0@ == n);
    }
    if exists|j: int| 0 <= j < v.len() && (#[trigger] v[j]).0@ == n {
        let j = choose|j: int| 0 <= j < v.len() && (#[trigger] v[j]).0@ == n;
        assert(keys_of(v)[j] == n);
    }
}

/// `s` is the scheme function def `d` declares under `sc`: its type
/// parameters, and its parameter and result types as written, converted
/// (capabilities allowed for parameters only).
pub open spec fn scheme_of(sc: TypeScope, d: Def, s: Scheme) -> bool {
    &&& d.params is Some
    &&& strs_view(s.tparams@) == strs_view(d.tparams@)
    &&& s.params@.len() == d.params->0@.len()
    &&& forall|p: int| 0 <= p < s.params@.len() ==> conv_rel(sc, d.params->0@[p].ty, strs_view(d.tparams@), true, seq![], #[trigger] s.params@[p]@)
    &&& conv_rel(sc, d.ty, strs_view(d.tparams@), false, seq![], s.ret@)
}

/// Each signature is the scheme of a function def of its name.
pub open spec fn sigs_declared(sc: TypeScope, items: Seq<Item>, sigs: Seq<(String, Scheme)>) -> bool {
    forall|k: int| 0 <= k < sigs.len() ==> exists|i: int|
        0 <= i < items.len() && #[trigger] items[i] is Def && items[i]->Def_0.name@ == (#[trigger] sigs[k]).0@
            && !repeats_name(items, i) && scheme_of(sc, items[i]->Def_0, sigs[k].1)
}

/// The entry point's declaration is acceptable under `sc`: a function def
/// without type parameters taking one parameter of type `Io` and
/// returning `Int`.
pub open spec fn main_decl_ok(sc: TypeScope, d: Def) -> bool {
    &&& d.params is Some
    &&& d.tparams@.len() == 0
    &&& d.params->0@.len() == 1
    &&& conv_rel(sc, d.params->0@[0].ty, seq![], true, seq![], TyV::Cap("Io"@))
    &&& conv_rel(sc, d.ty, seq![], false, seq![], TyV::Int)
}

/// The program's entry point is checked: when its `main` (the first def of
/// that name that repeats no top-level name) is missing or not acceptable,
/// a diagnostic under [W8] is reported.
pub open spec fn main_checked(sc: TypeScope, items: Seq<Item>, diags: Seq<Diag>, from: int) -> bool {
    (forall|i: int| 0 <= i < items.len() && #[trigger] items[i] is Def && items[i]->Def_0.name@ == "main"@ && !repeats_name(items, i)
        ==> main_decl_ok(sc, items[i]->Def_0)) || w8_reported(from, diags)
}

pub proof fn lemma_first_key_some<T>(v: Seq<(String, T)>, n: Seq<char>)
    ensures
        first_key(v, n) matches Some(k) ==> 0 <= k < v.len() && v[k].0@ == n,
    decreases v.len(),
{
    if v.len() > 0 && v[0].0@ != n {
        lemma_first_key_some(v.drop_first(), n);
        if first_key(v.drop_first(), n) is Some {
            let k = first_key(v.drop_first(), n)->0;
            assert(v.drop_first()[k] == v[k + 1]);
        }
    }
}

/// A well-formed entry signature makes the entry point acceptable.
pub proof fn lemma_main_checked(sc: TypeScope, items: Seq<Item>, sigs: Seq<(String, Scheme)>, diags: Seq<Diag>, from: int)
    requires
        sigs_declared(sc, items, sigs),
        match first_key(sigs, "main"@) {
            None => false,
            Some(k) => main_scheme_ok(sigs[k].1),
        } || w8_reported(from, diags),
    ensures
        main_checked(sc, items, diags, from),
{
    if !w8_reported(from, diags) {
        lemma_first_key_some(sigs, "main"@);
        let k = first_key(sigs, "main"@)->0;
        assert(0 <= k < sigs.len());
        let i2 = choose|i: int|
            0 <= i < items.len() && #[trigger] items[i] is Def && items[i]->Def_0.name@ == (#[trigger] sigs[k]).0@
                && !repeats_name(items, i) && scheme_of(sc, items[i]->Def_0, sigs[k].1);
        assert forall|i: int| 0 <= i < items.len() && #[trigger] items[i] is Def && items[i]->Def_0.name@ == "main"@
            && !repeats_name(items, i) implies main_decl_ok(sc, items[i]->Def_0) by {
            lemma_first_def_unique(items, i, i2);
            let d = items[i]->Def_0;
            let sg = sigs[k].1;
            assert(strs_view(d.tparams@).len() == d.tparams@.len());
            assert(strs_view(sg.tparams@).len() == sg.tparams@.len());
            assert(strs_view(d.tparams@) =~= seq![]);
            assert(conv_rel(sc, d.params->0@[0].ty, strs_view(d.tparams@), true, seq![], sg.params@[0]@));
        }
    }
}

/// Two defs of one name that both repeat no top-level name are one item.
pub proof fn lemma_first_def_unique(items: Seq<Item>, i: int, j: int)
    requires
        0 <= i < items.len(),
        0 <= j < items.len(),
        items[i] is Def,
        items[j] is Def,
        items[i]->Def_0.name@ == items[j]->Def_0.name@,
        !repeats_name(items, i),
        !repeats_name(items, j),
    ensures
        i == j,
{
    if i < j {
        assert(is_def_named(items[i], items[j]->Def_0.name@));
    } else if j < i {
        assert(is_def_named(items[j], items[i]->Def_0.name@));
    }
}

/// Each constant's type is the declared type of a constant def of its name.
pub open spec fn consts_declared(sc: TypeScope, items: Seq<Item>, consts: Seq<(String, Ty)>) -> bool {
    forall|k: int| 0 <= k < consts.len() ==> exists|i: int|
        0 <= i < items.len() && #[trigger] items[i] is Def && items[i]->Def_0.name@ == (#[trigger] consts[k]).0@
            && items[i]->Def_0.params is None && conv_rel(sc, items[i]->Def_0.ty, seq![], false, seq![], consts[k].1@)
}

/// A diagnostic under `rule` at `span` is among those from index `from` on.
pub open spec fn reported_at(from: int, diags: Seq<Diag>, rule: Seq<char>, span: Span) -> bool {
    exists|k: int| from <= k < diags.len() && (#[trigger] diags[k]).rule@ == rule && diags[k].span == span
}

/// The type of a literal expression, and `None` for any other kind.
pub open spec fn lit_ty(k: ExprKind) -> Option<TyV> {
    match k {
        ExprKind::Int(_) => Some(TyV::Int),
        ExprKind::Float(_) => Some(TyV::Float),
        ExprKind::Bool(_) => Some(TyV::Bool),
        ExprKind::Text(_) => Some(TyV::Text),
        ExprKind::Unit => Some(TyV::Unit),
        _ => None,
    }
}

/// The expected type handed to inference, by its view.
pub open spec fn opt_ty(o: Option<&Ty>) -> Option<TyV> {
    match o {
        Some(x) => Some(x@),
        None => None,
    }
}

/// A literal checked against an expected type that it plainly does not
/// have under the store `st`.
pub open spec fn lit_mismatch(st: Seq<Option<TyV>>, expected: Option<TyV>, k: ExprKind) -> bool {
    match (expected, lit_ty(k)) {
        (Some(x), Some(t)) => unify_top(st, x, t) == Some(false),
        _ => false,
    }
}

/// What checking a conditional reports of its literal parts: a literal
/// condition other than a `Bool` [W18] at the condition, and, with no type
/// expected from outside, an `else` literal of another type than the `then`
/// literal [W18] at the `else` branch, which is checked against the `then`
/// branch's type.
pub open spec fn if_checked(k: ExprKind, expected: Option<TyV>, from: int, diags: Seq<Diag>) -> bool {
    match k {
        ExprKind::If { cond, then, els } => {
            &&& (lit_ty(cond.kind) is Some && lit_ty(cond.kind) != Some(TyV::Bool) ==> reported_at(
                from,
                diags,
                "W18"@,
                cond.span,
            ))
            &&& (expected is None && lit_ty(then.kind) is Some && lit_ty(els.kind) is Some && lit_ty(then.kind)
                != lit_ty(els.kind) ==> reported_at(from, diags, "W18"@, els.span))
        },
        _ => true,
    }
}

pub proof fn lemma_if_checked_extend(k: ExprKind, expected: Option<TyV>, from: int, a: Seq<Diag>, b: Seq<Diag>)
    requires
        0 <= from,
        if_checked(k, expected, from, a),
        diags_extend(a, b),
    ensures
        if_checked(k, expected, from, b),
{
    match k {
        ExprKind::If { cond, then, els } => {
            if lit_ty(cond.kind) is Some && lit_ty(cond.kind) != Some(TyV::Bool) {
                lemma_reported_extend(from, a, b, "W18"@, cond.span);
            }
            if expected is None && lit_ty(then.kind) is Some && lit_ty(els.kind) is Some && lit_ty(then.kind) != lit_ty(
                els.kind,
            ) {
                lemma_reported_extend(from, a, b, "W18"@, els.span);
            }
        },
        _ => {},
    }
}

/// The type an operand plainly has before inference: a literal's type, or
/// the type in scope of a name.
pub open spec fn known_ty<'a>(c: Checker<'a>, e: Expr) -> Option<TyV> {
    match lit_ty(e.kind) {
        Some(t) => Some(t),
        None => match e.kind {
            ExprKind::Var(n) => name_type(c, n@),
            _ => None,
        },
    }
}

/// A binary operator whose left operand plainly has a type the operator
/// does not take: arithmetic and ordering take Int or Float, `++` Text or a
/// List (a variable or the poison type is left to unification).
pub open spec fn bin_operand_refused<'a>(c: Checker<'a>, e: Expr) -> bool {
    match e.kind {
        ExprKind::Bin(op, l, _) => match known_ty(c, *l) {
            Some(t) => !(t is Var) && !(t is Error) && match op {
                BinOp::Add | BinOp::Sub | BinOp::Mul | BinOp::Div | BinOp::Rem | BinOp::Lt | BinOp::Le | BinOp::Gt
                | BinOp::Ge => !(t is Int) && !(t is Float),
                BinOp::Concat => !(t is Text) && !(t is List),
                _ => false,
            },
            None => false,
        },
        _ => false,
    }
}

/// A hole of this name recorded at this span.
pub open spec fn hole_listed(holes: Seq<(String, usize, Span)>, name: Seq<char>, span: Span) -> bool {
    exists|k: int| 0 <= k < holes.len() && (#[trigger] holes[k]).0@ == name && holes[k].2 == span
}

/// What checking a property test reports of its body's own form: a literal
/// body other than a `Bool` [W18] at the body, the conditional's literal
/// parts as for any `if` checked against `Bool`, and a hole body recorded.
pub open spec fn test_body_checked(t: Test, from: int, diags: Seq<Diag>, holes: Seq<(String, usize, Span)>) -> bool {
    &&& (lit_ty(t.body.kind) is Some && lit_ty(t.body.kind) != Some(TyV::Bool) ==> reported_at(
        from,
        diags,
        "W18"@,
        t.body.span,
    ))
    &&& if_checked(t.body.kind, Some(TyV::Bool), from, diags)
    &&& (t.body.kind is Hole ==> hole_listed(holes, t.body.kind->Hole_0@, t.body.span))
}

pub proof fn lemma_test_body_extend(
    t: Test,
    from: int,
    d1: Seq<Diag>,
    d2: Seq<Diag>,
    h1: Seq<(String, usize, Span)>,
    h2: Seq<(String, usize, Span)>,
)
    requires
        0 <= from,
        test_body_checked(t, from, d1, h1),
        diags_extend(d1, d2),
        seq_extends(h1, h2),
    ensures
        test_body_checked(t, from, d2, h2),
{
    if lit_ty(t.body.kind) is Some && lit_ty(t.body.kind) != Some(TyV::Bool) {
        lemma_reported_extend(from, d1, d2, "W18"@, t.body.span);
    }
    lemma_if_checked_extend(t.body.kind, Some(TyV::Bool), from, d1, d2);
    if t.body.kind is Hole {
        let k = choose|k: int| 0 <= k < h1.len() && (#[trigger] h1[k]).0@ == t.body.kind->Hole_0@ && h1[k].2 == t.body.span;
        assert(h2.subrange(0, h1.len() as int)[k] == h2[k]);
    }
}

pub proof fn lemma_test_body_from(t: Test, from: int, later: int, d: Seq<Diag>, h: Seq<(String, usize, Span)>)
    requires
        from <= later,
        test_body_checked(t, later, d, h),
    ensures
        test_body_checked(t, from, d, h),
{
    if lit_ty(t.body.kind) is Some && lit_ty(t.body.kind) != Some(TyV::Bool) {
        lemma_reported_from(from, later, d, "W18"@, t.body.span);
    }
    match &t.body.kind {
        ExprKind::If { cond, then, els } => {
            if lit_ty(cond.kind) is Some && lit_ty(cond.kind) != Some(TyV::Bool) {
                lemma_reported_from(from, later, d, "W18"@, cond.span);
            }
        },
        _ => {},
    }
}

/// [`test_body_checked`] from the start of the diagnostics, with the holes
/// as the result lists them.
pub open spec fn test_body_reported(t: Test, diags: Seq<Diag>, notes: Seq<HoleNote>) -> bool {
    &&& (lit_ty(t.body.kind) is Some && lit_ty(t.body.kind) != Some(TyV::Bool) ==> reported_at(
        0,
        diags,
        "W18"@,
        t.body.span,
    ))
    &&& if_checked(t.body.kind, Some(TyV::Bool), 0, diags)
    &&& (t.body.kind is Hole ==> exists|k: int|
        0 <= k < notes.len() && (#[trigger] notes[k]).name@ == t.body.kind->Hole_0@ && notes[k].span == t.body.span)
}

pub proof fn lemma_reported_from(from: int, later: int, diags: Seq<Diag>, rule: Seq<char>, span: Span)
    requires
        from <= later,
        reported_at(later, diags, rule, span),
    ensures
        reported_at(from, diags, rule, span),
{
    let k = choose|k: int| later <= k < diags.len() && (#[trigger] diags[k]).rule@ == rule && diags[k].span == span;
    assert(from <= k < diags.len() && diags[k].rule@ == rule && diags[k].span == span);
}

/// Expression kinds whose type is never a result, a variable or the poison
/// type: literals, `not`, comparisons and logic, list literals, lambdas and
/// record literals without `..`.
pub open spec fn plainly_not_result(k: ExprKind) -> bool {
    match k {
        ExprKind::Int(_) | ExprKind::Float(_) | ExprKind::Bool(_) | ExprKind::Text(_) | ExprKind::Unit | ExprKind::NotOp(_)
        | ExprKind::List(_) | ExprKind::Lambda { .. } => true,
        ExprKind::Record { spread, .. } => spread is None,
        ExprKind::Bin(op, _, _) => !(op == BinOp::Add || op == BinOp::Sub || op == BinOp::Mul || op == BinOp::Div || op
            == BinOp::Rem || op == BinOp::Concat),
        _ => false,
    }
}

/// An operand of `?` that is plainly no result: one of the kinds of
/// [`plainly_not_result`], or a name whose type is neither a result, a
/// variable nor the poison type.
pub open spec fn not_result_operand<'a>(before: Checker<'a>, inner: Expr) -> bool {
    ||| plainly_not_result(inner.kind)
    ||| inner.kind is Var && match name_type(before, inner.kind->Var_0@) {
        Some(t) => !(t is Res) && !(t is Var) && !(t is Error),
        None => false,
    }
}

/// `?` inside a def, applied to a local of type `Result[O, E]`, where the
/// def returns `Result[_, F]` with `E` and `F` different base types (and `O`
/// a base type): the differing Err types are reported [W26] at the `?`.
pub open spec fn propagate_err_checked<'a>(before: Checker<'a>, inner: Expr, after: Seq<Diag>, span: Span) -> bool {
    inner.kind is Var && before.lambda_depth == 0 ==> match (name_type(before, inner.kind->Var_0@), before.cur_ret) {
        (Some(TyV::Res(okt, et)), Some(rt)) => match rt@ {
            TyV::Res(_, e2) => base_ty(*okt) && base_ty(*et) && base_ty(*e2) && *e2 != *et ==> reported_at(
                before.diags@.len() as int,
                after,
                "W26"@,
                span,
            ),
            _ => true,
        },
        _ => true,
    }
}

pub proof fn lemma_propagate_err_extend<'a>(before: Checker<'a>, inner: Expr, a: Seq<Diag>, b: Seq<Diag>, span: Span)
    requires
        propagate_err_checked(before, inner, a, span),
        diags_extend(a, b),
    ensures
        propagate_err_checked(before, inner, b, span),
{
    if inner.kind is Var && before.lambda_depth == 0 {
        match (name_type(before, inner.kind->Var_0@), before.cur_ret) {
            (Some(TyV::Res(okt, et)), Some(rt)) => match rt@ {
                TyV::Res(_, e2) => {
                    if base_ty(*okt) && base_ty(*et) && base_ty(*e2) && *e2 != *et {
                        lemma_reported_extend(before.diags@.len() as int, a, b, "W26"@, span);
                    }
                },
                _ => {},
            },
            _ => {},
        }
    }
}

/// `?` applied to a local whose type is a result with a base Ok type: the
/// whole has a variable that the store binds to that Ok type.
pub open spec fn propagate_ok_typed<'a>(before: Checker<'a>, inner: Expr, st: Seq<Option<TyV>>, r: TyV) -> bool {
    inner.kind is Var ==> match name_type(before, inner.kind->Var_0@) {
        Some(TyV::Res(okt, _)) => base_ty(*okt) ==> r is Var && r->Var_0 < st.len() && st[r->Var_0 as int] == Some(*okt),
        _ => true,
    }
}

pub proof fn lemma_propagate_ok_extend<'a>(before: Checker<'a>, inner: Expr, a: Seq<Option<TyV>>, b: Seq<Option<TyV>>, r: TyV)
    requires
        propagate_ok_typed(before, inner, a, r),
        store_extends(a, b),
    ensures
        propagate_ok_typed(before, inner, b, r),
{
}

/// `?` at `span` is refused under [W26] inside a lambda, where no function
/// def encloses it (a constant, a test or an invariant), and in a def whose
/// result type is plainly not a `Result`.
pub open spec fn propagate_checked<'a>(before: Checker<'a>, after: Seq<Diag>, span: Span) -> bool {
    (before.lambda_depth > 0 || before.cur_ret is None || (before.cur_ret matches Some(t) && !(t@ is Res) && !(
    t@ is Var) && !(t@ is Error))) ==> reported_at(before.diags@.len() as int, after, "W26"@, span)
}

/// A use of the name `n` at `span`: a capability local used in a contract
/// is reported under [W29], one captured by a lambda under [W33].
pub open spec fn cap_use_reported<'a>(before: Checker<'a>, after: Seq<Diag>, n: Seq<char>, span: Span) -> bool {
    match last_named(before.env@, n) {
        Some(i) => {
            let b = before.env@[i];
            &&& b.is_cap && before.in_contract ==> reported_at(before.diags@.len() as int, after, "W29"@, span)
            &&& b.is_cap && b.lambda_depth < before.lambda_depth ==> reported_at(
                before.diags@.len() as int,
                after,
                "W33"@,
                span,
            )
        },
        None => true,
    }
}

/// A report stays reported as diagnostics are appended.
pub proof fn lemma_reported_extend(from: int, a: Seq<Diag>, b: Seq<Diag>, rule: Seq<char>, span: Span)
    requires
        0 <= from,
        reported_at(from, a, rule, span),
        diags_extend(a, b),
    ensures
        reported_at(from, b, rule, span),
{
    let k = choose|k: int| from <= k < a.len() && (#[trigger] a[k]).rule@ == rule && a[k].span == span;
    assert(b.subrange(0, a.len() as int)[k] == b[k]);
}

/// The type an application of constructor `n` to `k` arguments has, and
/// what is reported: `Some`/`None` give an option type and `Ok`/`Err` a
/// result type, with [W9] when the number of arguments is wrong; a
/// declared constructor gives its owning type, with [W12] when the number
/// of arguments differs from its payload; an unknown one gives the poison
/// type and [W12].
pub open spec fn ctor_typed<'a>(c: Checker<'a>, after: Seq<Diag>, n: Seq<char>, k: nat, span: Span, r: TyV) -> bool {
    let from = c.diags@.len() as int;
    if n == "Some"@ || n == "None"@ || n == "Ok"@ || n == "Err"@ {
        &&& (if n == "Some"@ || n == "None"@ { r is Opt } else { r is Res })
        &&& k != (if n == "Some"@ { 1nat } else if n == "None"@ { 0nat } else { 1nat }) ==> reported_at(
            from,
            after,
            "W9"@,
            span,
        )
    } else {
        match first_key(c.ctors@, n) {
            Some(j) => {
                &&& r == TyV::Named(c.ctors@[j].1.0@)
                &&& k != c.ctors@[j].1.1@.len() ==> reported_at(from, after, "W12"@, span)
            },
            None => r == TyV::Error && reported_at(from, after, "W12"@, span),
        }
    }
}

pub proof fn lemma_ctor_typed_extend<'a>(c: Checker<'a>, a: Seq<Diag>, b: Seq<Diag>, n: Seq<char>, k: nat, span: Span, r: TyV)
    requires
        ctor_typed(c, a, n, k, span, r),
        diags_extend(a, b),
    ensures
        ctor_typed(c, b, n, k, span, r),
{
    let from = c.diags@.len() as int;
    if reported_at(from, a, "W9"@, span) {
        lemma_reported_extend(from, a, b, "W9"@, span);
    }
    if reported_at(from, a, "W12"@, span) {
        lemma_reported_extend(from, a, b, "W12"@, span);
    }
}

/// A call of a named function: its type is the result type of the name's
/// (instantiated) function type, and a wrong number of arguments is
/// reported under [W19]; a call of an unknown name has the poison type.
pub open spec fn call_typed<'a>(c: Checker<'a>, after: Seq<Diag>, callee: Expr, k: nat, span: Span, r: TyV) -> bool {
    callee.kind is Var ==> match name_type(c, callee.kind->Var_0@) {
        Some(TyV::Fn(ps, rt)) => r == *rt && (ps.len() != k ==> reported_at(c.diags@.len() as int, after, "W19"@, span)),
        None => r == TyV::Error,
        _ => true,
    }
}

/// A diagnostic under [W8] is among those from index `from` on.
pub open spec fn w8_reported(from: int, diags: Seq<Diag>) -> bool {
    exists|k: int| from <= k < diags.len() && (#[trigger] diags[k]).rule@ == "W8"@
}

/// A `main` every reading of whose declaration is the entry point's type:
/// a function def without type parameters whose one parameter's type only
/// ever denotes `Io` and whose result type only ever denotes `Int`.
pub open spec fn main_decl_sure(sc: TypeScope, d: Def) -> bool {
    &&& d.params is Some
    &&& d.tparams@.len() == 0
    &&& d.params->0@.len() == 1
    &&& forall|t: TyV| #[trigger] conv_rel(sc, d.params->0@[0].ty, seq![], true, seq![], t) ==> t == TyV::Cap("Io"@)
    &&& forall|t: TyV| #[trigger] conv_rel(sc, d.ty, seq![], false, seq![], t) ==> t == TyV::Int
}

/// No `main` (first def of that name repeating no top-level name) is surely
/// the entry point.
pub open spec fn main_refused(sc: TypeScope, items: Seq<Item>) -> bool {
    forall|i: int| 0 <= i < items.len() && #[trigger] items[i] is Def && items[i]->Def_0.name@ == "main"@ && !repeats_name(items, i)
        ==> !main_decl_sure(sc, items[i]->Def_0)
}

pub proof fn lemma_first_key_none<T>(v: Seq<(String, T)>, n: Seq<char>)
    ensures
        first_key(v, n) is None ==> forall|j: int| 0 <= j < v.len() ==> (#[trigger] v[j]).0@ != n,
    decreases v.len(),
{
    if v.len() > 0 && v[0].0@ != n {
        lemma_first_key_none(v.drop_first(), n);
        if first_key(v, n) is None {
            assert forall|j: int| 0 <= j < v.len() implies (#[trigger] v[j]).0@ != n by {
                if j > 0 {
                    assert(v.drop_first()[j - 1] == v[j]);
                }
            }
        }
    }
}

/// When the entry point's signature is missing or wrong, no `main` is
/// surely the entry point.
pub proof fn lemma_main_refused(sc: TypeScope, items: Seq<Item>, sigs: Seq<(String, Scheme)>)
    requires
        sigs_declared(sc, items, sigs),
        names_complete(items, keys_of(sigs), fn_def_pick(), items.len() as int, true),
        !main_sig_ok(sigs),
    ensures
        main_refused(sc, items),
{
    assert forall|i: int| 0 <= i < items.len() && #[trigger] items[i] is Def && items[i]->Def_0.name@ == "main"@
        && !repeats_name(items, i) implies !main_decl_sure(sc, items[i]->Def_0) by {
        let d = items[i]->Def_0;
        if main_decl_sure(sc, d) {
            assert(fn_def_pick()(items[i]));
            assert(top_name(items[i]) == "main"@);
            assert(keys_of(sigs).contains("main"@));
            lemma_first_key_none(sigs, "main"@);
            lemma_keys_of(sigs, "main"@);
            lemma_first_key_some(sigs, "main"@);
            let k = first_key(sigs, "main"@)->0;
            let i2 = choose|i2: int|
                0 <= i2 < items.len() && #[trigger] items[i2] is Def && items[i2]->Def_0.name@ == (#[trigger] sigs[k]).0@
                    && !repeats_name(items, i2) && scheme_of(sc, items[i2]->Def_0, sigs[k].1);
            lemma_first_def_unique(items, i, i2);
            let sg = sigs[k].1;
            assert(strs_view(d.tparams@).len() == d.tparams@.len());
            assert(strs_view(sg.tparams@).len() == sg.tparams@.len());
            assert(strs_view(d.tparams@) =~= seq![]);
            assert(conv_rel(sc, d.params->0@[0].ty, seq![], true, seq![], sg.params@[0]@));
            assert(conv_rel(sc, d.ty, seq![], false, seq![], sg.ret@));
            assert(main_scheme_ok(sg));
        }
    }
}

/// Some diagnostic is under `rule` exactly when their count is not zero.
pub proof fn lemma_count_exists(ds: Seq<Diag>, rule: Seq<char>)
    ensures
        (count_rule(ds, rule) > 0) == (exists|k: int| 0 <= k < ds.len() && (#[trigger] ds[k]).rule@ == rule),
    decreases ds.len(),
{
    if ds.len() > 0 {
        lemma_count_exists(ds.drop_last(), rule);
        if exists|k: int| 0 <= k < ds.drop_last().len() && (#[trigger] ds.drop_last()[k]).rule@ == rule {
            let k = choose|k: int| 0 <= k < ds.drop_last().len() && (#[trigger] ds.drop_last()[k]).rule@ == rule;
            assert(ds[k] == ds.drop_last()[k]);
        }
        if exists|k: int| 0 <= k < ds.len() && (#[trigger] ds[k]).rule@ == rule {
            let k = choose|k: int| 0 <= k < ds.len() && (#[trigger] ds[k]).rule@ == rule;
            if k < ds.len() - 1 {
                assert(ds.drop_last()[k] == ds[k]);
            }
        }
    }
}

/// How many diagnostics of `ds` are under `rule`.
pub open spec fn count_rule(ds: Seq<Diag>, rule: Seq<char>) -> nat
    decreases ds.len(),
{
    if ds.len() == 0 {
        0
    } else {
        count_rule(ds.drop_last(), rule) + if ds.last().rule@ == rule {
            1nat
        } else {
            0nat
        }
    }
}

/// How many items before `n` repeat a top-level name: types when `types`,
/// defs otherwise.
pub open spec fn repeats_upto(items: Seq<Item>, n: int, types: bool) -> nat
    decreases n,
{
    if n <= 0 {
        0
    } else {
        repeats_upto(items, n - 1, types) + if (if types {
            items[n - 1] is TypeDef
        } else {
            items[n - 1] is Def
        }) && repeats_name(items, n - 1) {
            1nat
        } else {
            0nat
        }
    }
}

/// The entry point's signature, where there is one, has the required scheme.
pub open spec fn main_sig_ok(sigs: Seq<(String, Scheme)>) -> bool {
    first_key(sigs, "main"@) matches Some(k) && main_scheme_ok(sigs[k].1)
}

/// Diagnostics appended by body checking leave the counts of [W7] and [W8]
/// unchanged.
pub proof fn lemma_count_body(a: Seq<Diag>, b: Seq<Diag>, rule: Seq<char>)
    requires
        diags_extend(a, b),
        rule == "W7"@ || rule == "W8"@,
    ensures
        count_rule(b, rule) == count_rule(a, rule),
    decreases b.len() - a.len(),
{
    if b.len() > a.len() {
        let c = b.drop_last();
        assert(c.subrange(0, a.len() as int) =~= b.subrange(0, a.len() as int));
        assert forall|k: int| a.len() <= k < c.len() implies body_rule(#[trigger] c[k]) by {
            assert(c[k] == b[k]);
        }
        lemma_count_body(a, c, rule);
        assert(body_rule(b[b.len() - 1]));
        lemma_body_rules(b.last().rule@);
    } else {
        assert(b =~= a);
    }
}

pub proof fn lemma_count_push(a: Seq<Diag>, d: Diag, rule: Seq<char>)
    ensures
        count_rule(a.push(d), rule) == count_rule(a, rule) + if d.rule@ == rule {
            1nat
        } else {
            0nat
        },
{
    assert(a.push(d).drop_last() =~= a);
}

pub proof fn lemma_w7_w8()
    ensures
        "W7"@ != "W8"@,
{
    reveal_strlit("W7");
    reveal_strlit("W8");
    assert("W7"@[1] != "W8"@[1]);
}

/// The entry point's required scheme: no type parameters, one `Io`
/// parameter, an `Int` result.
pub open spec fn main_scheme_ok(s: Scheme) -> bool {
    s.tparams@.len() == 0 && s.params@.len() == 1 && s.params@[0]@ == TyV::Cap("Io"@) && s.ret@ == TyV::Int
}

/// Appending an entry adds its name to the keys.
pub proof fn lemma_keys_push<T>(v: Seq<(String, T)>, e: (String, T))
    ensures
        forall|n: Seq<char>| #[trigger] keys_of(v.push(e)).contains(n) <==> keys_of(v).contains(n) || n == e.0@,
{
    let ks = keys_of(v);
    assert(keys_of(v.push(e)) =~= ks.push(e.0@));
    assert forall|n: Seq<char>| #[trigger] keys_of(v.push(e)).contains(n) <==> ks.contains(n) || n == e.0@ by {
        if n == e.0@ {
            assert(ks.push(e.0@)[ks.len() as int] == n);
        }
        if ks.contains(n) {
            let j = choose|j: int| 0 <= j < ks.len() && ks[j] == n;
            assert(ks.push(e.0@)[j] == n);
        }
        if ks.push(e.0@).contains(n) && n != e.0@ {
            let j = choose|j: int| 0 <= j < ks.len() + 1 && ks.push(e.0@)[j] == n;
            assert(ks[j] == n);
        }
    }
}

/// Which items a declaration table is filled from.
pub open spec fn variants_pick() -> spec_fn(Item) -> bool {
    |it: Item| it is TypeDef && it->TypeDef_0.decl is Variants
}

pub open spec fn nominal_pick() -> spec_fn(Item) -> bool {
    |it: Item| it is TypeDef && it->TypeDef_0.decl is Nominal
}

pub open spec fn fn_def_pick() -> spec_fn(Item) -> bool {
    |it: Item| it is Def && it->Def_0.params is Some
}

pub open spec fn const_def_pick() -> spec_fn(Item) -> bool {
    |it: Item| it is Def && it->Def_0.params is None
}

/// Item `i` declares an alias.
pub open spec fn alias_decl(items: Seq<Item>, i: int) -> bool {
    0 <= i < items.len() && items[i] is TypeDef && items[i]->TypeDef_0.decl is Alias
}

/// Every name in `keys` is the name of an item that `pick` selects.
pub open spec fn names_sound(items: Seq<Item>, keys: Seq<Seq<char>>, pick: spec_fn(Item) -> bool) -> bool {
    forall|n: Seq<char>| #[trigger] keys.contains(n) ==> exists|i: int|
        0 <= i < items.len() && pick(#[trigger] items[i]) && top_name(items[i]) == n
}

/// The name of every item before `upto` that `pick` selects is in `keys`;
/// when `firsts`, only of those that do not repeat a top-level name.
pub open spec fn names_complete(
    items: Seq<Item>,
    keys: Seq<Seq<char>>,
    pick: spec_fn(Item) -> bool,
    upto: int,
    firsts: bool,
) -> bool {
    forall|i: int| 0 <= i < upto && pick(#[trigger] items[i]) && !(firsts && repeats_name(items, i)) ==> keys.contains(
        top_name(items[i]),
    )
}

/// Each alias entry names the item declaring it, and every alias before
/// `upto` that does not repeat a top-level name has its entry.
pub open spec fn aliases_collected(items: Seq<Item>, aliases: Seq<(String, usize)>, upto: int) -> bool {
    &&& forall|k: int| 0 <= k < aliases.len() ==> alias_decl(items, (#[trigger] aliases[k]).1 as int) && top_name(
        items[aliases[k].1 as int],
    ) == aliases[k].0@
    &&& forall|i: int| 0 <= i < upto && #[trigger] alias_decl(items, i) && !repeats_name(items, i) ==> exists|k: int|
        0 <= k < aliases.len() && (#[trigger] aliases[k]).1 == i
}

/// Sets the entry named `name`, replacing an existing one.
fn set_entry<V>(v: &mut Vec<(String, V)>, name: String, val: V)
    ensures
        (exists|k: int|
            0 <= k < old(v)@.len() && (#[trigger] old(v)@[k]).0@ == name@ && (forall|j: int|
                0 <= j < k ==> (#[trigger] old(v)@[j]).0@ != name@) && final(v)@ == old(v)@.update(k, (name, val)))
            || ((forall|k: int| 0 <= k < old(v)@.len() ==> (#[trigger] old(v)@[k]).0@ != name@) && final(v)@ == old(
            v,
        )@.push((name, val))),
        forall|n: Seq<char>| #[trigger] keys_of(final(v)@).contains(n) <==> keys_of(old(v)@).contains(n) || n == name@,
{
    let ghost nm = name@;
    match find_key(v, name.as_str()) {
        Some(k) => {
            v.set(k, (name, val));
            proof {
                assert(keys_of(v@) =~= keys_of(old(v)@));
                assert(keys_of(old(v)@)[k as int] == nm);
                assert forall|n: Seq<char>| #[trigger] keys_of(v@).contains(n) <==> keys_of(old(v)@).contains(n) || n == nm by {
                    if n == nm {
                        assert(keys_of(v@)[k as int] == n);
                    }
                }
            }
        }
        None => {
            v.push((name, val));
            proof {
                let ks = keys_of(old(v)@);
                assert(keys_of(v@) =~= ks.push(nm));
                assert forall|n: Seq<char>| #[trigger] keys_of(v@).contains(n) <==> ks.contains(n) || n == nm by {
                    if n == nm {
                        assert(ks.push(nm)[ks.len() as int] == n);
                    }
                    if ks.contains(n) {
                        let j = choose|j: int| 0 <= j < ks.len() && ks[j] == n;
                        assert(ks.push(nm)[j] == n);
                    }
                    if ks.push(nm).contains(n) && n != nm {
                        let j = choose|j: int| 0 <= j < ks.len() + 1 && ks.push(nm)[j] == n;
                        assert(ks[j] == n);
                    }
                }
            }
        }
    }
}

impl<'a> Checker<'a> {
    /// Store, diagnostics and holes only grew; the declaration tables and
    /// the program are unchanged.
    pub open spec fn check_post(&self, o: &Checker<'a>) -> bool {
        &&& store_extends(o.st(), self.st())
        &&& diags_extend(o.diags@, self.diags@)
        &&& seq_extends(o.holes@, self.holes@)
        &&& self.prog == o.prog
        &&& self.aliases == o.aliases
        &&& self.variants == o.variants
        &&& self.nominals == o.nominals
        &&& self.ctors == o.ctors
        &&& self.sigs == o.sigs
        &&& self.consts == o.consts
        &&& self.builtins == o.builtins
    }

    /// Pass 1: declarations, signatures and the entry point. Each alias is
    /// entered with its declaring item; the variant and nominal tables are
    /// keyed by exactly the names of the variant and nominal declarations;
    /// the signature and constant tables by exactly the names of defs with
    /// and without parameters, each first declaration of a name included.
    #[verifier::loop_isolation(false)]
    #[verifier::rlimit(100)]
    #[verifier::spinoff_prover]
    fn collect(&mut self)
        requires
            old(self).sigs@.len() == 0,
            old(self).aliases@.len() == 0,
            old(self).variants@.len() == 0,
            old(self).nominals@.len() == 0,
            old(self).consts@.len() == 0,
        ensures
            final(self).prog == old(self).prog,
            aliases_collected(old(self).prog.items@, final(self).aliases@, old(self).prog.items@.len() as int),
            names_sound(old(self).prog.items@, keys_of(final(self).variants@), variants_pick()),
            names_complete(old(self).prog.items@, keys_of(final(self).variants@), variants_pick(), old(self).prog.items@.len() as int, false),
            names_sound(old(self).prog.items@, keys_of(final(self).nominals@), nominal_pick()),
            names_complete(old(self).prog.items@, keys_of(final(self).nominals@), nominal_pick(), old(self).prog.items@.len() as int, false),
            names_sound(old(self).prog.items@, keys_of(final(self).sigs@), fn_def_pick()),
            names_complete(old(self).prog.items@, keys_of(final(self).sigs@), fn_def_pick(), old(self).prog.items@.len() as int, true),
            names_sound(old(self).prog.items@, keys_of(final(self).consts@), const_def_pick()),
            names_complete(old(self).prog.items@, keys_of(final(self).consts@), const_def_pick(), old(self).prog.items@.len() as int, true),
            sigs_declared(final(self).type_scope(), old(self).prog.items@, final(self).sigs@),
            consts_declared(final(self).type_scope(), old(self).prog.items@, final(self).consts@),
            match first_key(final(self).sigs@, "main"@) {
                None => false,
                Some(k) => main_scheme_ok(final(self).sigs@[k].1),
            } || w8_reported(old(self).diags@.len() as int, final(self).diags@),
            main_checked(final(self).type_scope(), old(self).prog.items@, final(self).diags@, old(self).diags@.len() as int),
            count_rule(final(self).diags@, "W7"@) == count_rule(old(self).diags@, "W7"@) + repeats_upto(
                old(self).prog.items@,
                old(self).prog.items@.len() as int,
                true,
            ) + repeats_upto(old(self).prog.items@, old(self).prog.items@.len() as int, false),
            count_rule(final(self).diags@, "W8"@) == count_rule(old(self).diags@, "W8"@) + if main_sig_ok(final(self).sigs@) {
                0nat
            } else {
                1nat
            },
            final(self).builtins == old(self).builtins,
            store_extends(old(self).st(), final(self).st()),
            diags_extend_top(old(self).diags@, final(self).diags@),
            seq_extends(old(self).holes@, final(self).holes@),
            !has_main_def(old(self).prog.items@) ==> exists|k: int|
                old(self).diags@.len() <= k < final(self).diags@.len() && no_main_diag(#[trigger] final(self).diags@[k]),
            dups_reported(
                old(self).prog.items@,
                final(self).diags@,
                old(self).diags@.len() as int,
                old(self).prog.items@.len() as int,
                true,
            ),
            dups_reported(
                old(self).prog.items@,
                final(self).diags@,
                old(self).diags@.len() as int,
                old(self).prog.items@.len() as int,
                false,
            ),
    {
        let prog = self.prog;
        let ghost d0 = self.diags@;
        proof {
            lemma_seq_extends_refl(self.diags@);
            lemma_seq_extends_refl(self.holes@);
        }
        let mut names: Vec<String> = Vec::new();
        let mut idx: usize = 0;
        proof {
            assert(str_set(names@) =~= type_names_before(prog.items@, 0));
        }
        while idx < prog.items.len()
            invariant
                self.prog == prog,
                self.builtins == old(self).builtins,
                self.sigs@.len() == 0,
                self.consts@.len() == 0,
                self.vars == old(self).vars,
                self.holes == old(self).holes,
                diags_extend_top(d0, self.diags@),
                idx <= prog.items@.len(),
                str_set(names@) == type_names_before(prog.items@, idx as int),
                dups_reported(prog.items@, self.diags@, d0.len() as int, idx as int, true),
                aliases_collected(prog.items@, self.aliases@, idx as int),
                names_sound(prog.items@, keys_of(self.variants@), variants_pick()),
                names_sound(prog.items@, keys_of(self.nominals@), nominal_pick()),
                count_rule(self.diags@, "W7"@) == count_rule(d0, "W7"@) + repeats_upto(prog.items@, idx as int, true),
                count_rule(self.diags@, "W8"@) == count_rule(d0, "W8"@),
            decreases prog.items.len() - idx,
        {
            let ghost sb = self.diags@;
            proof {
                assert(forall|n: Seq<char>| #[trigger] type_names_before(prog.items@, idx + 1).contains(n) <==> (
                type_names_before(prog.items@, idx as int).contains(n) || is_type_named(prog.items@[idx as int], n))) by {
                    assert forall|n: Seq<char>| #[trigger] type_names_before(prog.items@, idx + 1).contains(n) implies (
                    type_names_before(prog.items@, idx as int).contains(n) || is_type_named(prog.items@[idx as int], n)) by {
                        let j = choose|j: int| 0 <= j < idx + 1 && #[trigger] is_type_named(prog.items@[j], n);
                        if j < idx {
                            assert(type_names_before(prog.items@, idx as int).contains(n));
                        }
                    }
                }
            }
            if let Item::TypeDef(td) = &prog.items[idx] {
                if contains_name(&names, td.name.as_str()) {
                    let ghost s0 = self.diags@;
                    self.report_top(Diag::new("W7", cat3("duplicate top-level name `", td.name.as_str(), "`"), td.span));
                    proof {
                        lemma_count_push(s0, self.diags@.last(), "W7"@);
                        lemma_count_push(s0, self.diags@.last(), "W8"@);
                        lemma_w7_w8();
                        assert(self.diags@ == s0.push(self.diags@.last()));
                        assert(self.diags@.subrange(0, s0.len() as int) =~= s0);
                        lemma_top_trans(d0, s0, self.diags@);
                        assert(str_set(names@).contains(td.name@));
                        assert(repeats_name(prog.items@, idx as int));
                        lemma_dups_extend(prog.items@, s0, self.diags@, d0.len() as int, idx as int, true);
                        assert(dup_diag(self.diags@[s0.len() as int], top_name(prog.items@[idx as int]), item_span_spec(prog.items@[idx as int])));
                        lemma_dups_upto(prog.items@, self.diags@, d0.len() as int, idx as int, true);
                        assert(type_names_before(prog.items@, idx + 1) =~= type_names_before(prog.items@, idx as int));
                    }
                } else {
                    let c = copy_string(&td.name);
                    proof {
                        assert(!str_set(names@).contains(td.name@));
                        assert(!repeats_name(prog.items@, idx as int));
                        lemma_str_set_push(names@, c);
                        assert(type_names_before(prog.items@, idx + 1) =~= type_names_before(prog.items@, idx as int).insert(td.name@));
                    }
                    names.push(c);
                    let ghost items = prog.items@;
                    let ghost a0 = self.aliases@;
                    let ghost v0 = self.variants@;
                    let ghost n0 = self.nominals@;
                    proof {
                        assert(items[idx as int] == Item::TypeDef(*td));
                        assert(top_name(items[idx as int]) == td.name@);
                    }
                    match &td.decl {
                        TypeDecl::Alias(_) => {
                            self.aliases.push((copy_string(&td.name), idx));
                            proof {
                                assert(alias_decl(items, idx as int));
                                assert(self.aliases@[a0.len() as int].1 == idx);
                                assert forall|k: int| 0 <= k < self.aliases@.len() implies alias_decl(items, (#[trigger] self.aliases@[k]).1 as int) && top_name(
                                    items[self.aliases@[k].1 as int],
                                ) == self.aliases@[k].0@ by {
                                    if k < a0.len() {
                                        assert(self.aliases@[k] == a0[k]);
                                    }
                                }
                                assert forall|i: int| 0 <= i < idx + 1 && #[trigger] alias_decl(items, i) && !repeats_name(items, i) implies exists|k: int|
                                    0 <= k < self.aliases@.len() && (#[trigger] self.aliases@[k]).1 == i by {
                                    if i < idx {
                                        let k = choose|k: int| 0 <= k < a0.len() && (#[trigger] a0[k]).1 == i;
                                        assert(self.aliases@[k] == a0[k]);
                                    } else {
                                        assert(self.aliases@[a0.len() as int].1 == i);
                                    }
                                }
                            }
                        }
                        TypeDecl::Variants(_) => {
                            self.variants.push((copy_string(&td.name), Vec::new()));
                            proof {
                                lemma_keys_push(v0, self.variants@.last());
                                assert(self.variants@ == v0.push(self.variants@.last()));
                                assert(variants_pick()(items[idx as int]));
                            }
                        }
                        TypeDecl::Nominal { .. } => {
                            self.nominals.push((copy_string(&td.name), Vec::new()));
                            proof {
                                lemma_keys_push(n0, self.nominals@.last());
                                assert(self.nominals@ == n0.push(self.nominals@.last()));
                                assert(nominal_pick()(items[idx as int]));
                            }
                        }
                    }
                }
            } else {
                proof {
                    assert(type_names_before(prog.items@, idx + 1) =~= type_names_before(prog.items@, idx as int));
                }
            }
            proof {
                if self.diags@ == sb {
                    lemma_dups_upto(prog.items@, self.diags@, d0.len() as int, idx as int, true);
                }
            }
            idx += 1;
        }
        let ghost dp1 = self.diags@;
        proof {
            assert(dp1.subrange(0, dp1.len() as int) =~= dp1);
        }
        // validate alias bodies (capability positions, unknown names, cycles)
        let ghost aliases0 = self.aliases;
        let ghost vars1 = self.variants;
        let ghost noms1 = self.nominals;
        let mut a: usize = 0;
        while a < self.aliases.len()
            invariant
                self.aliases == aliases0,
                self.variants == vars1,
                self.nominals == noms1,
                self.prog == prog,
                self.builtins == old(self).builtins,
                self.sigs@.len() == 0,
                self.consts@.len() == 0,
                self.vars == old(self).vars,
                self.holes == old(self).holes,
                diags_extend_top(d0, self.diags@),
                diags_extend(dp1, self.diags@),
            decreases self.aliases.len() - a,
        {
            let idx = self.aliases[a].1;
            let name = copy_string(&self.aliases[a].0);
            if idx < prog.items.len() {
                if let Item::TypeDef(td) = &prog.items[idx] {
                    if let TypeDecl::Alias(te) = &td.decl {
                        let mut seen: Vec<String> = Vec::new();
                        seen.push(name);
                        let ghost s0 = self.diags@;
                        let _ = self.conv_type(te, &Vec::new(), false, &mut seen);
                        proof {
                            lemma_top_trans(d0, s0, self.diags@);
                            lemma_diags_extend_trans(dp1, s0, self.diags@);
                        }
                    }
                }
            }
            a += 1;
        }
        // nominal record fields
        let mut idx: usize = 0;
        while idx < prog.items.len()
            invariant
                self.aliases == aliases0,
                self.variants == vars1,
                idx <= prog.items@.len(),
                names_sound(prog.items@, keys_of(self.nominals@), nominal_pick()),
                names_complete(prog.items@, keys_of(self.nominals@), nominal_pick(), idx as int, false),
                self.prog == prog,
                self.builtins == old(self).builtins,
                self.sigs@.len() == 0,
                self.consts@.len() == 0,
                self.vars == old(self).vars,
                self.holes == old(self).holes,
                diags_extend_top(d0, self.diags@),
                diags_extend(dp1, self.diags@),
            decreases prog.items.len() - idx,
        {
            if let Item::TypeDef(td) = &prog.items[idx] {
                if let TypeDecl::Nominal { fields, .. } = &td.decl {
                    let ghost nb = self.nominals;
                    let mut out: Vec<(String, Ty)> = Vec::new();
                    let mut f: usize = 0;
                    while f < fields.len()
                        invariant
                            self.aliases == aliases0,
                            self.variants == vars1,
                            self.nominals == nb,
                            self.prog == prog,
                            self.builtins == old(self).builtins,
                            self.sigs@.len() == 0,
                            self.consts@.len() == 0,
                            self.vars == old(self).vars,
                            self.holes == old(self).holes,
                            diags_extend_top(d0, self.diags@),
                            diags_extend(dp1, self.diags@),
                        decreases fields.len() - f,
                    {
                        let mut seen: Vec<String> = Vec::new();
                        let ghost s0 = self.diags@;
                        let t = self.conv_type(&fields[f].1, &Vec::new(), false, &mut seen);
                        proof {
                            lemma_top_trans(d0, s0, self.diags@);
                            lemma_diags_extend_trans(dp1, s0, self.diags@);
                        }
                        out.push((copy_string(&fields[f].0), t));
                        f += 1;
                    }
                    let sorted = sort_by_name(out);
                    set_entry(&mut self.nominals, copy_string(&td.name), sorted);
                    proof {
                        assert(prog.items@[idx as int] == Item::TypeDef(*td));
                        assert(nominal_pick()(prog.items@[idx as int]));
                        assert(top_name(prog.items@[idx as int]) == td.name@);
                    }
                }
            }
            idx += 1;
        }
        // constructor payloads
        let ghost noms3 = self.nominals;
        let mut idx: usize = 0;
        while idx < prog.items.len()
            invariant
                self.aliases == aliases0,
                self.nominals == noms3,
                idx <= prog.items@.len(),
                names_sound(prog.items@, keys_of(self.variants@), variants_pick()),
                names_complete(prog.items@, keys_of(self.variants@), variants_pick(), idx as int, false),
                self.prog == prog,
                self.builtins == old(self).builtins,
                self.sigs@.len() == 0,
                self.consts@.len() == 0,
                self.vars == old(self).vars,
                self.holes == old(self).holes,
                diags_extend_top(d0, self.diags@),
                diags_extend(dp1, self.diags@),
            decreases prog.items.len() - idx,
        {
            if let Item::TypeDef(td) = &prog.items[idx] {
                if let TypeDecl::Variants(vs) = &td.decl {
                    let ghost vb = self.variants;
                    let mut list: Vec<(String, Vec<Ty>)> = Vec::new();
                    let mut v: usize = 0;
                    while v < vs.len()
                        invariant
                            self.aliases == aliases0,
                            self.nominals == noms3,
                            self.variants == vb,
                            self.prog == prog,
                            self.builtins == old(self).builtins,
                            self.sigs@.len() == 0,
                            self.consts@.len() == 0,
                            self.vars == old(self).vars,
                            self.holes == old(self).holes,
                            diags_extend_top(d0, self.diags@),
                            diags_extend(dp1, self.diags@),
                        decreases vs.len() - v,
                    {
                        let vd = &vs[v];
                        if find_key(&self.ctors, vd.name.as_str()).is_some() || is_builtin_ctor(vd.name.as_str()) {
                            let ghost s0 = self.diags@;
                            self.report(
                                Diag::new(
                                    "W12",
                                    cat3(
                                        "duplicate variant name `",
                                        vd.name.as_str(),
                                        "` (variant names must be unique across the file)",
                                    ),
                                    vd.span,
                                ),
                            );
                            proof {
                                assert(self.diags@.subrange(0, s0.len() as int) =~= s0);
                                lemma_top_trans(d0, s0, self.diags@);
                                lemma_diags_extend_trans(dp1, s0, self.diags@);
                            }
                        } else {
                            let mut payload: Vec<Ty> = Vec::new();
                            let mut p: usize = 0;
                            while p < vd.payload.len()
                                invariant
                                    self.aliases == aliases0,
                                    self.nominals == noms3,
                                    self.variants == vb,
                                    self.prog == prog,
                                    self.builtins == old(self).builtins,
                                    self.sigs@.len() == 0,
                                    self.consts@.len() == 0,
                                    self.vars == old(self).vars,
                                    self.holes == old(self).holes,
                                    diags_extend_top(d0, self.diags@),
                                    diags_extend(dp1, self.diags@),
                                decreases vd.payload.len() - p,
                            {
                                let mut seen: Vec<String> = Vec::new();
                                let ghost s0 = self.diags@;
                                let t = self.conv_type(&vd.payload[p], &Vec::new(), false, &mut seen);
                                proof {
                                    lemma_top_trans(d0, s0, self.diags@);
                                    lemma_diags_extend_trans(dp1, s0, self.diags@);
                                }
                                payload.push(t);
                                p += 1;
                            }
                            let copy = copy_tys(&payload);
                            self.ctors.push((copy_string(&vd.name), (copy_string(&td.name), payload)));
                            list.push((copy_string(&vd.name), copy));
                        }
                        v += 1;
                    }
                    set_entry(&mut self.variants, copy_string(&td.name), list);
                    proof {
                        assert(prog.items@[idx as int] == Item::TypeDef(*td));
                        assert(variants_pick()(prog.items@[idx as int]));
                        assert(top_name(prog.items@[idx as int]) == td.name@);
                    }
                }
            }
            idx += 1;
        }
        // def signatures
        let ghost vars4 = self.variants;
        let ghost sc5 = self.type_scope();
        let mut idx: usize = 0;
        proof {
            lemma_count_body(dp1, self.diags@, "W7"@);
            lemma_count_body(dp1, self.diags@, "W8"@);
            lemma_dups_extend(prog.items@, dp1, self.diags@, d0.len() as int, prog.items@.len() as int, true);
            assert(type_names_before(prog.items@, prog.items@.len() as int).union(def_names_before(prog.items@, 0))
                =~= str_set(names@));
        }
        while idx < prog.items.len()
            invariant
                self.aliases == aliases0,
                self.variants == vars4,
                self.nominals == noms3,
                idx <= prog.items@.len(),
                count_rule(self.diags@, "W7"@) == count_rule(d0, "W7"@) + repeats_upto(prog.items@, prog.items@.len() as int, true)
                    + repeats_upto(prog.items@, idx as int, false),
                count_rule(self.diags@, "W8"@) == count_rule(d0, "W8"@),
                names_sound(prog.items@, keys_of(self.sigs@), fn_def_pick()),
                names_complete(prog.items@, keys_of(self.sigs@), fn_def_pick(), idx as int, true),
                names_sound(prog.items@, keys_of(self.consts@), const_def_pick()),
                names_complete(prog.items@, keys_of(self.consts@), const_def_pick(), idx as int, true),
                self.type_scope() == sc5,
                sigs_declared(sc5, prog.items@, self.sigs@),
                consts_declared(sc5, prog.items@, self.consts@),
                self.prog == prog,
                self.builtins == old(self).builtins,
                self.vars == old(self).vars,
                self.holes == old(self).holes,
                diags_extend_top(d0, self.diags@),
                forall|k: int| 0 <= k < self.sigs@.len() ==> def_named(prog.items@, (#[trigger] self.sigs@[k]).0@),
                str_set(names@) == type_names_before(prog.items@, prog.items@.len() as int).union(
                    def_names_before(prog.items@, idx as int),
                ),
                dups_reported(prog.items@, self.diags@, d0.len() as int, prog.items@.len() as int, true),
                dups_reported(prog.items@, self.diags@, d0.len() as int, idx as int, false),
            decreases prog.items.len() - idx,
        {
            let ghost sb = self.diags@;
            proof {
                assert(sb.subrange(0, sb.len() as int) =~= sb);
                assert(forall|n: Seq<char>| #[trigger] def_names_before(prog.items@, idx + 1).contains(n) <==> (
                def_names_before(prog.items@, idx as int).contains(n) || is_def_named(prog.items@[idx as int], n))) by {
                    assert forall|n: Seq<char>| #[trigger] def_names_before(prog.items@, idx + 1).contains(n) implies (
                    def_names_before(prog.items@, idx as int).contains(n) || is_def_named(prog.items@[idx as int], n)) by {
                        let j = choose|j: int| 0 <= j < idx + 1 && #[trigger] is_def_named(prog.items@[j], n);
                        if j < idx {
                            assert(def_names_before(prog.items@, idx as int).contains(n));
                        }
                    }
                }
            }
            if let Item::Def(d) = &prog.items[idx] {
                if contains_name(&names, d.name.as_str()) {
                    let ghost s0 = self.diags@;
                    self.report_top(Diag::new("W7", cat3("duplicate top-level name `", d.name.as_str(), "`"), d.span));
                    proof {
                        lemma_count_push(s0, self.diags@.last(), "W7"@);
                        lemma_count_push(s0, self.diags@.last(), "W8"@);
                        lemma_w7_w8();
                        assert(self.diags@ == s0.push(self.diags@.last()));
                        assert(self.diags@.subrange(0, s0.len() as int) =~= s0);
                        lemma_top_trans(d0, s0, self.diags@);
                        assert(str_set(names@).contains(d.name@));
                        assert(repeats_name(prog.items@, idx as int));
                        assert(dup_diag(self.diags@[s0.len() as int], top_name(prog.items@[idx as int]), item_span_spec(prog.items@[idx as int])));
                        assert(str_set(names@) =~= type_names_before(prog.items@, prog.items@.len() as int).union(
                            def_names_before(prog.items@, idx + 1),
                        ));
                    }
                } else {
                    let c = copy_string(&d.name);
                    proof {
                        assert(!str_set(names@).contains(d.name@));
                        assert(!repeats_name(prog.items@, idx as int));
                        lemma_str_set_push(names@, c);
                        assert(str_set(names@).insert(c@) =~= type_names_before(prog.items@, prog.items@.len() as int).union(
                            def_names_before(prog.items@, idx + 1),
                        ));
                    }
                    names.push(c);
                    match &d.params {
                        Some(ps) => {
                            let ghost sigs0 = self.sigs;
                            let ghost consts0 = self.consts;
                            let mut params: Vec<Ty> = Vec::new();
                            let mut p: usize = 0;
                            while p < ps.len()
                                invariant
                                    self.aliases == aliases0,
                                    self.variants == vars4,
                                    self.nominals == noms3,
                                    self.prog == prog,
                                    self.builtins == old(self).builtins,
                                    self.vars == old(self).vars,
                                    self.holes == old(self).holes,
                                    diags_extend_top(d0, self.diags@),
                                    diags_extend(sb, self.diags@),
                                    self.sigs == sigs0,
                                    self.consts == consts0,
                                    self.type_scope() == sc5,
                                    params@.len() == p,
                                    p <= ps@.len(),
                                    forall|q: int| 0 <= q < p ==> conv_rel(sc5, ps@[q].ty, strs_view(d.tparams@), true, seq![], (#[trigger] params@[q])@),
                                decreases ps.len() - p,
                            {
                                let mut seen: Vec<String> = Vec::new();
                                proof {
                                    assert(strs_view(seen@) =~= seq![]);
                                }
                                let ghost s0 = self.diags@;
                                let t = self.conv_type(&ps[p].ty, &d.tparams, true, &mut seen);
                                proof {
                                    lemma_top_trans(d0, s0, self.diags@);
                                    lemma_diags_extend_trans(sb, s0, self.diags@);
                                }
                                params.push(t);
                                p += 1;
                            }
                            let mut seen: Vec<String> = Vec::new();
                            proof {
                                assert(strs_view(seen@) =~= seq![]);
                            }
                            let ghost s1 = self.diags@;
                            let ret = self.conv_type(&d.ty, &d.tparams, false, &mut seen);
                            proof {
                                lemma_top_trans(d0, s1, self.diags@);
                                lemma_diags_extend_trans(sb, s1, self.diags@);
                            }
                            let sc = Scheme { tparams: copy_names(&d.tparams), params, ret };
                            proof {
                                assert(strs_view(sc.tparams@) =~= strs_view(d.tparams@));
                                assert(prog.items@[idx as int]->Def_0 == *d);
                                assert(d.params == Some(*ps));
                                assert(conv_rel(sc5, d.ty, strs_view(d.tparams@), false, seq![], sc.ret@));
                                assert(scheme_of(sc5, *d, sc));
                            }
                            let ghost before_sigs = self.sigs@;
                            self.sigs.push((copy_string(&d.name), sc));
                            proof {
                                let k = self.sigs@.len() - 1;
                                assert(self.sigs@ == before_sigs.push(self.sigs@.last()));
                                lemma_keys_push(before_sigs, self.sigs@.last());
                                assert(fn_def_pick()(prog.items@[idx as int]));
                                assert(top_name(prog.items@[idx as int]) == d.name@);
                                assert(prog.items@[idx as int] is Def);
                                assert(prog.items@[idx as int]->Def_0 == *d);
                                assert(prog.items@[idx as int]->Def_0.name@ == self.sigs@[k].0@);
                                assert(def_named(prog.items@, self.sigs@[k].0@));
                                assert forall|q: int| 0 <= q < self.sigs@.len() implies def_named(prog.items@, (#[trigger] self.sigs@[q]).0@) by {
                                    if q < k {
                                        assert(self.sigs@[q] == before_sigs[q]);
                                    }
                                }
                                assert forall|q: int| 0 <= q < self.sigs@.len() implies exists|i: int|
                                    0 <= i < prog.items@.len() && #[trigger] prog.items@[i] is Def && prog.items@[i]->Def_0.name@ == (#[trigger] self.sigs@[q]).0@
                                        && !repeats_name(prog.items@, i) && scheme_of(sc5, prog.items@[i]->Def_0, self.sigs@[q].1) by {
                                    if q < k {
                                        assert(self.sigs@[q] == before_sigs[q]);
                                    } else {
                                        assert(prog.items@[idx as int] is Def);
                                    }
                                }
                            }
                        }
                        None => {
                            let mut seen: Vec<String> = Vec::new();
                            let no_tps: Vec<String> = Vec::new();
                            proof {
                                assert(strs_view(seen@) =~= seq![]);
                                assert(strs_view(no_tps@) =~= seq![]);
                            }
                            let ghost s1 = self.diags@;
                            let ty = self.conv_type(&d.ty, &no_tps, false, &mut seen);
                            proof {
                                lemma_top_trans(d0, s1, self.diags@);
                                lemma_diags_extend_trans(sb, s1, self.diags@);
                            }
                            let ghost c0 = self.consts@;
                            self.consts.push((copy_string(&d.name), ty));
                            proof {
                                assert(self.consts@ == c0.push(self.consts@.last()));
                                lemma_keys_push(c0, self.consts@.last());
                                assert(prog.items@[idx as int]->Def_0 == *d);
                                assert(const_def_pick()(prog.items@[idx as int]));
                                assert(top_name(prog.items@[idx as int]) == d.name@);
                                assert forall|q: int| 0 <= q < self.consts@.len() implies exists|i: int|
                                    0 <= i < prog.items@.len() && #[trigger] prog.items@[i] is Def && prog.items@[i]->Def_0.name@ == (#[trigger] self.consts@[q]).0@
                                        && prog.items@[i]->Def_0.params is None && conv_rel(sc5, prog.items@[i]->Def_0.ty, seq![], false, seq![], self.consts@[q].1@) by {
                                    if q < c0.len() {
                                        assert(self.consts@[q] == c0[q]);
                                    } else {
                                        assert(prog.items@[idx as int] is Def);
                                    }
                                }
                            }
                        }
                    }
                }
            }
            proof {
                if !(prog.items@[idx as int] is Def && repeats_name(prog.items@, idx as int)) {
                    assert(sb.subrange(0, sb.len() as int) =~= sb);
                    lemma_count_body(sb, self.diags@, "W7"@);
                    lemma_count_body(sb, self.diags@, "W8"@);
                }
                lemma_dups_extend(prog.items@, sb, self.diags@, d0.len() as int, prog.items@.len() as int, true);
                lemma_dups_extend(prog.items@, sb, self.diags@, d0.len() as int, idx as int, false);
                if !(prog.items@[idx as int] is Def) {
                    assert(def_names_before(prog.items@, idx + 1) =~= def_names_before(prog.items@, idx as int));
                }
                lemma_dups_upto(prog.items@, self.diags@, d0.len() as int, idx as int, false);
            }
            idx += 1;
        }
        // entry point
        let ghost dm = self.diags@;
        match find_key(&self.sigs, "main") {
            None => {
                let span = if prog.items.len() > 0 { item_span(&prog.items[0]) } else { Span::new(0, 0) };
                self.report_top(Diag::new("W8", owned("program has no entry point"), span).hint(owned("add `def main(io: Io) -> Int = ...`")));
                proof {
                    lemma_count_push(dm, self.diags@.last(), "W7"@);
                    lemma_count_push(dm, self.diags@.last(), "W8"@);
                    lemma_w7_w8();
                    assert(self.diags@ == dm.push(self.diags@.last()));
                    assert(self.diags@.subrange(0, dm.len() as int) =~= dm);
                    lemma_top_trans(d0, dm, self.diags@);
                    assert(no_main_diag(self.diags@[dm.len() as int]));
                    lemma_first_key(self.sigs@, "main"@, self.sigs@.len() as int);
                }
            }
            Some(k) => {
                proof {
                    lemma_first_key(self.sigs@, "main"@, k as int);
                }
                let ok = {
                    let s = &self.sigs[k].1;
                    s.tparams.len() == 0 && s.params.len() == 1 && (match &s.params[0] {
                        Ty::Cap(c) => str_eq(c.as_str(), "Io"),
                        _ => false,
                    }) && (match &s.ret {
                        Ty::Int => true,
                        _ => false,
                    })
                };
                if !ok {
                    let mut span = Span::new(0, 0);
                    let mut j: usize = 0;
                    while j < prog.items.len()
                        decreases prog.items.len() - j,
                    {
                        if let Item::Def(d) = &prog.items[j] {
                            if str_eq(d.name.as_str(), "main") {
                                span = d.span;
                                break;
                            }
                        }
                        j += 1;
                    }
                    self.report_top(Diag::new("W8", owned("main must have exactly the signature `def main(io: Io) -> Int`"), span));
                    proof {
                        lemma_count_push(dm, self.diags@.last(), "W7"@);
                        lemma_count_push(dm, self.diags@.last(), "W8"@);
                        lemma_w7_w8();
                        assert(self.diags@ == dm.push(self.diags@.last()));
                        assert(self.diags@.subrange(0, dm.len() as int) =~= dm);
                        lemma_top_trans(d0, dm, self.diags@);
                        assert(self.diags@[dm.len() as int].rule@ == "W8"@);
                    }
                }
                proof {
                    assert(def_named(prog.items@, self.sigs@[k as int].0@));
                    assert(has_main_def(prog.items@));
                }
            }
        }
        proof {
            if self.diags@ == dm {
                assert(self.diags@.subrange(0, dm.len() as int) =~= dm);
            }
            lemma_dups_extend(prog.items@, dm, self.diags@, d0.len() as int, prog.items@.len() as int, true);
            lemma_dups_extend(prog.items@, dm, self.diags@, d0.len() as int, prog.items@.len() as int, false);
            lemma_main_checked(self.type_scope(), prog.items@, self.sigs@, self.diags@, d0.len() as int);
        }
    }
}


pub proof fn lemma_check_refl<'a>(a: &Checker<'a>)
    ensures
        a.check_post(a),
{
    lemma_seq_extends_refl(a.diags@);
    lemma_seq_extends_refl(a.holes@);
}

pub proof fn lemma_check_from_infer<'a>(a: &Checker<'a>, b: &Checker<'a>)
    requires
        b.infer_post(a),
    ensures
        b.check_post(a),
{
}

pub proof fn lemma_check_from_bind<'a>(a: &Checker<'a>, b: &Checker<'a>)
    requires
        b.bind_post(a),
    ensures
        b.check_post(a),
{
}

pub proof fn lemma_check_post_trans<'a>(a: &Checker<'a>, b: &Checker<'a>, c: &Checker<'a>)
    requires
        b.check_post(a),
        c.check_post(b),
    ensures
        c.check_post(a),
{
    lemma_diags_extend_trans(a.diags@, b.diags@, c.diags@);
    lemma_seq_extends_trans(a.holes@, b.holes@, c.holes@);
}

impl<'a> Checker<'a> {
    fn reset_scope(&mut self)
        ensures
            final(self).env@.len() == 0,
            final(self).lambda_depth == 0,
            final(self).check_post(old(self)),
            final(self).cur_ret == old(self).cur_ret,
            final(self).cur_tparams == old(self).cur_tparams,
            final(self).in_contract == old(self).in_contract,
    {
        self.env.clear();
        self.lambda_depth = 0;
        proof {
            lemma_seq_extends_refl(self.diags@);
            lemma_seq_extends_refl(self.holes@);
        }
    }

    /// Check a contract (or invariant) as a pure Bool expression.
    fn check_contract(&mut self, c: &Expr)
        ensures
            final(self).check_post(old(self)),
            final(self).env@ == old(self).env@,
    {
        let saved = self.in_contract;
        self.in_contract = true;
        let ghost s0 = *self;
        let _ = self.infer(c, Some(&Ty::Bool));
        self.in_contract = saved;
    }

    /// Validate a nominal type's invariant: fields in scope, pure Bool.
    fn check_invariant(&mut self, tyname: &str, inv: &Expr, span: Span)
        ensures
            final(self).check_post(old(self)),
    {
        if contains_hole(inv) {
            self.report(Diag::new("W42", cat3("invariant of `", tyname, "` contains a hole; invariants must be complete"), span));
            return;
        }
        self.reset_scope();
        self.cur_ret = None;
        let ghost s0 = *self;
        proof {
            lemma_check_refl(self);
        }
        let fields = match find_key(&self.nominals, tyname) {
            Some(k) => copy_fields(&self.nominals[k].1),
            None => Vec::new(),
        };
        let mut i: usize = 0;
        while i < fields.len()
            invariant
                self.check_post(&s0),
            decreases fields.len() - i,
        {
            let ghost s1 = *self;
            self.bind_local(&fields[i].0, fields[i].1.copy(), false);
            proof {
                lemma_diags_extend_trans(s0.diags@, s1.diags@, self.diags@);
                lemma_seq_extends_trans(s0.holes@, s1.holes@, self.holes@);
            }
            i += 1;
        }
        let ghost s2 = *self;
        self.check_contract(inv);
        proof {
            lemma_diags_extend_trans(s0.diags@, s2.diags@, self.diags@);
            lemma_seq_extends_trans(s0.holes@, s2.holes@, self.holes@);
        }
        self.env.clear();
        proof {
            lemma_diags_extend_trans(old(self).diags@, s0.diags@, self.diags@);
            lemma_seq_extends_trans(old(self).holes@, s0.holes@, self.holes@);
        }
    }

    #[verifier::loop_isolation(false)]
    fn check_def(&mut self, d: &Def)
        ensures
            final(self).check_post(old(self)),
    {
        self.reset_scope();
        let ghost s0 = *self;
        proof {
            lemma_check_refl(self);
        }
        match &d.params {
            Some(ps) => {
                let scheme = match find_key(&self.sigs, d.name.as_str()) {
                    Some(k) => copy_scheme(&self.sigs[k].1),
                    None => {
                        return;
                    }
                };
                self.cur_ret = Some(scheme.ret.copy());
                self.cur_tparams = copy_names(&d.tparams);
                let mut i: usize = 0;
                while i < ps.len()
                    invariant
                        self.check_post(&s0),
                    decreases ps.len() - i,
                {
                    let p = &ps[i];
                    let ty = if i < scheme.params.len() { scheme.params[i].copy() } else { Ty::Error };
                    let is_cap = match &ty {
                        Ty::Cap(_) => true,
                        _ => false,
                    };
                    let ghost s1 = *self;
                    self.bind_local(&p.name, ty, is_cap);
                    proof {
                        lemma_diags_extend_trans(s0.diags@, s1.diags@, self.diags@);
                        lemma_seq_extends_trans(s0.holes@, s1.holes@, self.holes@);
                    }
                    match &p.contract {
                        Some(contract) => {
                            let ghost s2 = *self;
                            if contains_hole(contract) {
                                self.report(
                                    Diag::new(
                                        "W29",
                                        cat3("contract on `", p.name.as_str(), "` contains a hole; contracts must be complete"),
                                        p.span,
                                    ),
                                );
                            } else {
                                self.check_contract(contract);
                            }
                            proof {
                                lemma_diags_extend_trans(s0.diags@, s2.diags@, self.diags@);
                                lemma_seq_extends_trans(s0.holes@, s2.holes@, self.holes@);
                            }
                        }
                        None => {}
                    }
                    i += 1;
                }
                let ghost s3 = *self;
                let _ = self.infer(&d.body, Some(&scheme.ret));
                proof {
                    lemma_diags_extend_trans(s0.diags@, s3.diags@, self.diags@);
                    lemma_seq_extends_trans(s0.holes@, s3.holes@, self.holes@);
                }
            }
            None => {
                let ty = match find_key(&self.consts, d.name.as_str()) {
                    Some(k) => self.consts[k].1.copy(),
                    None => {
                        return;
                    }
                };
                self.cur_ret = None;
                self.cur_tparams.clear();
                let ghost s3 = *self;
                proof {
                    lemma_seq_extends_refl(s0.diags@);
                    lemma_seq_extends_refl(s0.holes@);
                }
                let _ = self.infer(&d.body, Some(&ty));
                proof {
                    lemma_diags_extend_trans(s0.diags@, s3.diags@, self.diags@);
                    lemma_seq_extends_trans(s0.holes@, s3.holes@, self.holes@);
                }
            }
        }
        self.cur_ret = None;
        self.cur_tparams.clear();
        proof {
            lemma_diags_extend_trans(old(self).diags@, s0.diags@, self.diags@);
            lemma_seq_extends_trans(old(self).holes@, s0.holes@, self.holes@);
        }
    }

    #[verifier::loop_isolation(false)]
    fn check_test(&mut self, t: &Test)
        ensures
            final(self).check_post(old(self)),
            test_body_checked(*t, old(self).diags@.len() as int, final(self).diags@, final(self).holes@),
    {
        self.reset_scope();
        self.cur_ret = None;
        let ghost s0 = *self;
        proof {
            lemma_check_refl(self);
        }
        let mut i: usize = 0;
        while i < t.params.len()
            invariant
                self.check_post(&s0),
            decreases t.params.len() - i,
        {
            let p = &t.params[i];
            let ghost s1 = *self;
            let mut seen: Vec<String> = Vec::new();
            let ty = self.conv_type(&p.ty, &Vec::new(), false, &mut seen);
            proof {
                lemma_seq_extends_refl(self.holes@);
            }
            let ghost s2 = *self;
            if !prop_type_ok(&ty) {
                self.report(
                    Diag::new(
                        "W35",
                        cat3("property-test parameter `", p.name.as_str(), "` must be Int, Float, Bool, Text, or a List of these"),
                        p.span,
                    ),
                );
                proof {
                    lemma_check_from_infer(&s2, self);
                }
            } else {
                proof {
                    lemma_check_refl(self);
                }
            }
            let ghost s3 = *self;
            self.bind_local(&p.name, ty, false);
            proof {
                lemma_check_from_bind(&s3, self);
            }
            let ghost s4 = *self;
            match &p.contract {
                Some(c) => {
                    self.check_contract(c);
                }
                None => {
                    proof {
                        lemma_check_refl(self);
                    }
                }
            }
            proof {
                lemma_check_post_trans(&s1, &s2, &s3);
                lemma_check_post_trans(&s1, &s3, &s4);
                lemma_check_post_trans(&s1, &s4, self);
                lemma_check_post_trans(&s0, &s1, self);
            }
            i += 1;
        }
        let ghost s3 = *self;
        let _ = self.infer(&t.body, Some(&Ty::Bool));
        proof {
            let from = old(self).diags@.len() as int;
            let mid = s3.diags@.len() as int;
            assert(opt_ty(Some(&Ty::Bool)) == Some(TyV::Bool));
            if lit_ty(t.body.kind) is Some && lit_ty(t.body.kind) != Some(TyV::Bool) {
                assert(unify_top(s3.st(), TyV::Bool, lit_ty(t.body.kind)->0) == Some(false));
                assert(lit_mismatch(s3.st(), Some(TyV::Bool), t.body.kind));
                lemma_reported_from(from, mid, self.diags@, "W18"@, t.body.span);
            }
            if t.body.kind is If {
                assert(if_checked(t.body.kind, Some(TyV::Bool), mid, self.diags@));
                match &t.body.kind {
                    ExprKind::If { cond, then, els } => {
                        if lit_ty(cond.kind) is Some && lit_ty(cond.kind) != Some(TyV::Bool) {
                            lemma_reported_from(from, mid, self.diags@, "W18"@, cond.span);
                        }
                    },
                    _ => {},
                }
            }
            if t.body.kind is Hole {
                let k = s3.holes@.len() as int;
                assert(self.holes@[self.holes@.len() - 1] == self.holes@.last());
                assert(hole_listed(self.holes@, t.body.kind->Hole_0@, t.body.span));
            }
            lemma_diags_extend_trans(s0.diags@, s3.diags@, self.diags@);
            lemma_seq_extends_trans(s0.holes@, s3.holes@, self.holes@);
            lemma_diags_extend_trans(old(self).diags@, s0.diags@, self.diags@);
            lemma_seq_extends_trans(old(self).holes@, s0.holes@, self.holes@);
        }
    }

    /// Pass 2: bodies, contracts, tests and invariants.
    fn check_bodies(&mut self)
        ensures
            final(self).check_post(old(self)),
            forall|i: int|
                0 <= i < final(self).prog.items@.len() && (#[trigger] final(self).prog.items@[i]) is Test ==> test_body_checked(
                    final(self).prog.items@[i]->Test_0,
                    old(self).diags@.len() as int,
                    final(self).diags@,
                    final(self).holes@,
                ),
    {
        let prog = self.prog;
        proof {
            lemma_seq_extends_refl(self.diags@);
            lemma_seq_extends_refl(self.holes@);
        }
        let mut i: usize = 0;
        while i < prog.items.len()
            invariant
                self.check_post(old(self)),
                self.prog == prog,
                i <= prog.items@.len(),
                forall|j: int|
                    0 <= j < i && (#[trigger] prog.items@[j]) is Test ==> test_body_checked(
                        prog.items@[j]->Test_0,
                        old(self).diags@.len() as int,
                        self.diags@,
                        self.holes@,
                    ),
            decreases prog.items.len() - i,
        {
            let ghost s0 = *self;
            match &prog.items[i] {
                Item::Def(d) => self.check_def(d),
                Item::Test(t) => self.check_test(t),
                Item::TypeDef(td) => {
                    match &td.decl {
                        TypeDecl::Nominal { invariant: inv, .. } => {
                            self.check_invariant(td.name.as_str(), inv, td.span);
                        }
                        _ => {
                            proof {
                                lemma_seq_extends_refl(self.diags@);
                                lemma_seq_extends_refl(self.holes@);
                            }
                        }
                    }
                }
            }
            proof {
                lemma_diags_extend_trans(old(self).diags@, s0.diags@, self.diags@);
                lemma_seq_extends_trans(old(self).holes@, s0.holes@, self.holes@);
                let from = old(self).diags@.len() as int;
                assert forall|j: int|
                    0 <= j < i + 1 && (#[trigger] prog.items@[j]) is Test implies test_body_checked(
                    prog.items@[j]->Test_0,
                    from,
                    self.diags@,
                    self.holes@,
                ) by {
                    if j < i {
                        lemma_test_body_extend(prog.items@[j]->Test_0, from, s0.diags@, self.diags@, s0.holes@, self.holes@);
                    } else {
                        lemma_test_body_from(prog.items@[j]->Test_0, from, s0.diags@.len() as int, self.diags@, self.holes@);
                    }
                }
            }
            i += 1;
        }
    }
}

/// Typecheck a program: every diagnostic in source order of discovery, the
/// typed holes with their inferred types, and the numbers of defs and
/// tests. A program without a `main` def is always reported [W8], and so
/// is one whose `main` is a constant, is generic, does not take exactly one
/// `Io` parameter or does not return `Int`, under the declarations in scope.
/// The body of every property test is checked against `Bool`: a literal of
/// another type is reported [W18] at the body, and a hole body is listed.
pub fn check_program(prog: &Program) -> (r: CheckResult)
    ensures
        r.defs == count_defs(prog.items@),
        r.tests == count_tests(prog.items@),
        !has_main_def(prog.items@) ==> exists|k: int| 0 <= k < r.diags@.len() && no_main_diag(#[trigger] r.diags@[k]),
        forall|k: int| 0 <= k < r.diags@.len() ==> cites_rule(#[trigger] r.diags@[k]),
        forall|i: int|
            0 <= i < prog.items@.len() && #[trigger] repeats_name(prog.items@, i) ==> exists|k: int|
                0 <= k < r.diags@.len() && dup_diag(r.diags@[k], top_name(prog.items@[i]), item_span_spec(prog.items@[i])),
        exists|sc: TypeScope|
            #![trigger main_checked(sc, prog.items@, r.diags@, 0)]
            sc.0 == prog.items@ && main_checked(sc, prog.items@, r.diags@, 0) && (w8_reported(0, r.diags@) ==> main_refused(
                sc,
                prog.items@,
            )),
        count_rule(r.diags@, "W8"@) <= 1,
        w8_reported(0, r.diags@) == (count_rule(r.diags@, "W8"@) == 1),
        forall|i: int|
            0 <= i < prog.items@.len() && (#[trigger] prog.items@[i]) is Test ==> test_body_reported(
                prog.items@[i]->Test_0,
                r.diags@,
                r.holes@,
            ),
        count_rule(r.diags@, "W7"@) == repeats_upto(prog.items@, prog.items@.len() as int, true) + repeats_upto(
            prog.items@,
            prog.items@.len() as int,
            false,
        ),
{
    let mut c = Checker {
        prog,
        aliases: Vec::new(),
        variants: Vec::new(),
        nominals: Vec::new(),
        ctors: Vec::new(),
        sigs: Vec::new(),
        consts: Vec::new(),
        builtins: builtin_sigs(),
        vars: Vec::new(),
        env: Vec::new(),
        lambda_depth: 0,
        cur_ret: None,
        cur_tparams: Vec::new(),
        in_contract: false,
        diags: Vec::new(),
        holes: Vec::new(),
    };
    assert(c.diags@.len() == 0);
    c.collect();
    let ghost dc = c.diags@;
    let ghost sc = c.type_scope();
    proof {
        if !has_main_def(prog.items@) {
            assert(exists|k: int| 0 <= k < dc.len() && no_main_diag(#[trigger] dc[k]));
        }
    }
    c.check_bodies();
    let ghost cb = c;
    proof {
        lemma_dups_extend(prog.items@, dc, c.diags@, 0, prog.items@.len() as int, true);
        lemma_dups_extend(prog.items@, dc, c.diags@, 0, prog.items@.len() as int, false);
        lemma_top_from_body(dc, c.diags@);
        lemma_top_trans(Seq::<Diag>::empty(), dc, c.diags@);
        assert(forall|k: int| 0 <= k < c.diags@.len() ==> cites_rule(#[trigger] c.diags@[k]));
        if w8_reported(0, dc) {
            let k = choose|k: int| 0 <= k < dc.len() && (#[trigger] dc[k]).rule@ == "W8"@;
            assert(c.diags@.subrange(0, dc.len() as int)[k] == c.diags@[k]);
            assert(w8_reported(0, c.diags@));
        }
        assert(main_checked(sc, prog.items@, c.diags@, 0));
        lemma_count_body(dc, c.diags@, "W7"@);
        lemma_count_body(dc, c.diags@, "W8"@);
        assert(count_rule(Seq::<Diag>::empty(), "W7"@) == 0);
        assert(count_rule(Seq::<Diag>::empty(), "W8"@) == 0);
        lemma_count_exists(c.diags@, "W8"@);
        if w8_reported(0, c.diags@) {
            lemma_main_refused(sc, prog.items@, c.sigs@);
        }
        if !has_main_def(prog.items@) {
            let k = choose|k: int| 0 <= k < dc.len() && no_main_diag(#[trigger] dc[k]);
            assert(c.diags@.subrange(0, dc.len() as int)[k] == c.diags@[k]);
            assert(no_main_diag(c.diags@[k]));
            assert(exists|k: int| 0 <= k < c.diags@.len() && no_main_diag(#[trigger] c.diags@[k]));
        }
    }
    let mut holes: Vec<HoleNote> = Vec::new();
    let mut i: usize = 0;
    while i < c.holes.len()
        invariant
            i <= c.holes@.len(),
            holes@.len() == i,
            forall|k: int|
                0 <= k < i ==> (#[trigger] holes@[k]).name@ == c.holes@[k].0@ && holes@[k].span == c.holes@[k].2,
        decreases c.holes.len() - i,
    {
        let ty = c.show(&Ty::Var(c.holes[i].1));
        holes.push(HoleNote { name: copy_string(&c.holes[i].0), ty, span: c.holes[i].2 });
        i += 1;
    }
    let mut defs: usize = 0;
    let mut tests: usize = 0;
    let mut j: usize = 0;
    while j < prog.items.len()
        invariant
            j <= prog.items@.len(),
            defs == count_defs(prog.items@.take(j as int)),
            tests == count_tests(prog.items@.take(j as int)),
            defs <= j,
            tests <= j,
        decreases prog.items.len() - j,
    {
        proof {
            assert(prog.items@.take(j + 1).drop_last() =~= prog.items@.take(j as int));
        }
        match &prog.items[j] {
            Item::Def(_) => {
                defs += 1;
            }
            Item::Test(_) => {
                tests += 1;
            }
            _ => {}
        }
        j += 1;
    }
    proof {
        assert(prog.items@.take(j as int) =~= prog.items@);
    }
    let ghost dfinal = c.diags@;
    let diags = c.diags;
    proof {
        assert(diags@ == dfinal);
        if !has_main_def(prog.items@) {
            assert(exists|k: int| 0 <= k < diags@.len() && no_main_diag(#[trigger] diags@[k]));
        }
    }
    let ghost dg = diags;
    let r = CheckResult { diags, holes, defs, tests };
    proof {
        assert(r.diags == dg);
        assert(r.diags@ == dg@);
        assert(cb.prog == prog);
        assert forall|i: int|
            0 <= i < prog.items@.len() && (#[trigger] prog.items@[i]) is Test implies test_body_reported(
            prog.items@[i]->Test_0,
            r.diags@,
            r.holes@,
        ) by {
            let t = prog.items@[i]->Test_0;
            assert(cb.prog.items@[i] == prog.items@[i]);
            lemma_test_body_from(t, 0, dc.len() as int, cb.diags@, cb.holes@);
            if t.body.kind is Hole {
                let k = choose|k: int|
                    0 <= k < cb.holes@.len() && (#[trigger] cb.holes@[k]).0@ == t.body.kind->Hole_0@ && cb.holes@[k].2
                        == t.body.span;
                assert(r.holes@[k].name@ == t.body.kind->Hole_0@ && r.holes@[k].span == t.body.span);
            }
        }
        assert forall|i: int|
            0 <= i < prog.items@.len() && #[trigger] repeats_name(prog.items@, i) implies exists|k: int|
            0 <= k < r.diags@.len() && dup_diag(r.diags@[k], top_name(prog.items@[i]), item_span_spec(prog.items@[i])) by {
            if prog.items@[i] is TypeDef {
                assert(dups_reported(prog.items@, dfinal, 0, prog.items@.len() as int, true));
            } else {
                assert(dups_reported(prog.items@, dfinal, 0, prog.items@.len() as int, false));
            }
        }
        if !has_main_def(prog.items@) {
            let k = choose|k: int| 0 <= k < dg@.len() && no_main_diag(#[trigger] dg@[k]);
            assert(no_main_diag(r.diags@[k]));
            assert(exists|k: int| 0 <= k < r.diags@.len() && no_main_diag(#[trigger] r.diags@[k]));
        }
        assert(r.diags@ == dfinal);
        assert(sc.0 == prog.items@ && main_checked(sc, prog.items@, r.diags@, 0) && (w8_reported(0, r.diags@) ==> main_refused(
            sc,
            prog.items@,
        )));
    }
    r
}

} // verus!
