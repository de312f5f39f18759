//! Reading a written type against the declarations in scope: aliases are
//! expanded, capabilities kept to parameter position, records put in field
//! order.
use vstd::prelude::*;
use crate::ast::{Item, TypeDecl, TypeExpr};
use crate::check::{Checker, contains_name, diags_extend, find_key, is_cap_name, keys_of, lemma_diags_extend_trans, lemma_keys_of, lemma_reported_extend, reported_at};
use crate::diag::Diag;
use crate::sort::{lex_lt, named, sort_by_name, sorted_by_name, with_name};
use crate::exhaust::strs_view;
use crate::text::{cat3, copy_string, owned, str_eq};
use crate::types::{Ty, TyV, fields_view, lemma_fields_view, lemma_tys_view, tys_view};

verus! {

/// The declarations a written type is read against: the program's items,
/// the aliases with the index of their declaring item, and the names of the
/// variant and of the nominal types.
pub type TypeScope = (Seq<Item>, Seq<(String, usize)>, Seq<Seq<char>>, Seq<Seq<char>>);

impl<'a> Checker<'a> {
    pub open spec fn type_scope(&self) -> TypeScope {
        (self.prog.items@, self.aliases@, keys_of(self.variants@), keys_of(self.nominals@))
    }
}

/// The declaring item of the first alias named `n`.
pub open spec fn alias_item(aliases: Seq<(String, usize)>, n: Seq<char>) -> Option<usize>
    decreases aliases.len(),
{
    if aliases.len() == 0 {
        None
    } else if aliases[0].0@ == n {
        Some(aliases[0].1)
    } else {
        alias_item(aliases.drop_first(), n)
    }
}

/// How many alias entries are named by no alias being expanded: what bounds
/// the expansion of nested aliases.
pub open spec fn unexpanded(aliases: Seq<(String, usize)>, exp: Seq<Seq<char>>) -> nat
    decreases aliases.len(),
{
    if aliases.len() == 0 {
        0
    } else {
        unexpanded(aliases.drop_last(), exp) + if exp.contains(aliases.last().0@) {
            0nat
        } else {
            1nat
        }
    }
}

/// Expanding one more alias, named by some entry and not yet expanded,
/// leaves fewer entries unexpanded.
pub proof fn lemma_unexpanded_push(aliases: Seq<(String, usize)>, exp: Seq<Seq<char>>, n: Seq<char>)
    ensures
        unexpanded(aliases, exp.push(n)) <= unexpanded(aliases, exp),
        !exp.contains(n) && (exists|k: int| 0 <= k < aliases.len() && (#[trigger] aliases[k]).0@ == n) ==> unexpanded(
            aliases,
            exp.push(n),
        ) < unexpanded(aliases, exp),
    decreases aliases.len(),
{
    if aliases.len() > 0 {
        let a = aliases.drop_last();
        lemma_unexpanded_push(a, exp, n);
        let l = aliases.last().0@;
        if exp.contains(l) {
            let j = choose|j: int| 0 <= j < exp.len() && exp[j] == l;
            assert(exp.push(n)[j] == l);
        }
        if l == n {
            assert(exp.push(n)[exp.len() as int] == n);
        }
        if !exp.contains(n) && (exists|k: int| 0 <= k < aliases.len() && (#[trigger] aliases[k]).0@ == n) {
            let k = choose|k: int| 0 <= k < aliases.len() && (#[trigger] aliases[k]).0@ == n;
            if k < aliases.len() - 1 {
                assert(a[k] == aliases[k]);
            }
        }
    }
}

/// An alias found by name is named by some entry.
pub proof fn lemma_alias_item_some(aliases: Seq<(String, usize)>, n: Seq<char>)
    ensures
        alias_item(aliases, n) is Some ==> exists|k: int| 0 <= k < aliases.len() && (#[trigger] aliases[k]).0@ == n,
    decreases aliases.len(),
{
    if aliases.len() > 0 {
        if aliases[0].0@ != n {
            lemma_alias_item_some(aliases.drop_first(), n);
            if alias_item(aliases, n) is Some {
                let k = choose|k: int| 0 <= k < aliases.drop_first().len() && (#[trigger] aliases.drop_first()[k]).0@ == n;
                assert(aliases[k + 1] == aliases.drop_first()[k]);
            }
        }
    }
}

/// The body of the alias declared by item `idx`, if that item declares one.
pub open spec fn alias_body(items: Seq<Item>, idx: usize) -> Option<TypeExpr> {
    if idx < items.len() {
        match items[idx as int] {
            Item::TypeDef(td) => match td.decl {
                TypeDecl::Alias(b) => Some(b),
                _ => None,
            },
            _ => None,
        }
    } else {
        None
    }
}

pub open spec fn is_cap_spec(n: Seq<char>) -> bool {
    n == "Io"@ || n == "Fs"@ || n == "Rand"@ || n == "Clock"@ || n == "Model"@
}

pub open spec fn is_builtin_type(n: Seq<char>) -> bool {
    n == "Int"@ || n == "Float"@ || n == "Bool"@ || n == "Text"@ || n == "Unit"@ || n == "List"@ || n
        == "Option"@ || n == "Result"@
}

/// Entries in name order.
pub open spec fn sorted_names(s: Seq<(Seq<char>, TyV)>) -> bool {
    forall|i: int, j: int| 0 <= i < j < s.len() ==> !lex_lt(#[trigger] s[j].0, #[trigger] s[i].0)
}

pub open spec fn has_name(n: Seq<char>) -> spec_fn((Seq<char>, TyV)) -> bool {
    |e: (Seq<char>, TyV)| e.0 == n
}

/// `a` and `b` hold, for every name, the same entries of that name in the
/// same order.
pub open spec fn same_by_name(a: Seq<(Seq<char>, TyV)>, b: Seq<(Seq<char>, TyV)>) -> bool {
    forall|n: Seq<char>| #[trigger] a.filter(has_name(n)) == b.filter(has_name(n))
}

/// The rule a written type is refused under at its own name, if it is:
/// a capability given type arguments [W30] or where none may stand [W33],
/// a type parameter given arguments [W13], a builtin type with the wrong
/// number of arguments or an unknown name [W9], a declared type given
/// arguments [W12], an alias given arguments or referring to itself [W11].
pub open spec fn name_refusal(
    sc: TypeScope,
    te: TypeExpr,
    tps: Seq<Seq<char>>,
    cap: bool,
    exp: Seq<Seq<char>>,
) -> Option<Seq<char>> {
    match te {
        TypeExpr::Name(name, args, _) => {
            let n = name@;
            let k = args@.len();
            if is_cap_spec(n) {
                if k > 0 {
                    Some("W30"@)
                } else if !cap {
                    Some("W33"@)
                } else {
                    None
                }
            } else if tps.contains(n) {
                if k > 0 {
                    Some("W13"@)
                } else {
                    None
                }
            } else if is_builtin_type(n) {
                if (k == 0 && (n == "Int"@ || n == "Float"@ || n == "Bool"@ || n == "Text"@ || n == "Unit"@)) || (k
                    == 1 && (n == "List"@ || n == "Option"@)) || (k == 2 && n == "Result"@) {
                    None
                } else {
                    Some("W9"@)
                }
            } else if sc.2.contains(n) || sc.3.contains(n) {
                if k > 0 {
                    Some("W12"@)
                } else {
                    None
                }
            } else {
                match alias_item(sc.1, n) {
                    Some(idx) => if k > 0 || exp.contains(n) {
                        Some("W11"@)
                    } else if alias_body(sc.0, idx) is Some {
                        None
                    } else {
                        Some("W9"@)
                    },
                    None => Some("W9"@),
                }
            }
        },
        _ => None,
    }
}

/// A written type name that stands for a type on its own, with nothing to
/// convert below it: an allowed capability, a type parameter, a base type,
/// or a declared variant or nominal type.
pub open spec fn name_plain(sc: TypeScope, te: TypeExpr, tps: Seq<Seq<char>>, cap: bool) -> bool {
    match te {
        TypeExpr::Name(name, args, _) => {
            let n = name@;
            &&& args@.len() == 0
            &&& (is_cap_spec(n) && cap) || (!is_cap_spec(n) && tps.contains(n)) || (!is_cap_spec(n) && !tps.contains(n) && (n
                == "Int"@ || n == "Float"@ || n == "Bool"@ || n == "Text"@ || n == "Unit"@)) || (!is_cap_spec(n)
                && !tps.contains(n) && !is_builtin_type(n) && (sc.2.contains(n) || sc.3.contains(n)))
        },
        _ => false,
    }
}

/// The span a written type is reported at.
pub open spec fn texpr_span(te: TypeExpr) -> crate::diag::Span {
    match te {
        TypeExpr::Name(_, _, sp) => sp,
        TypeExpr::Record(_, sp) => sp,
        TypeExpr::Fn(_, _, sp) => sp,
    }
}

/// Every capability written where none may stand is reported [W33] at its
/// name: a capability without type arguments where this place allows none,
/// and any capability inside the arguments of `List`, `Option` and
/// `Result`, the fields of a record or the parameter and result types of a
/// function type.
pub open spec fn caps_refused(tps: Seq<Seq<char>>, te: TypeExpr, cap: bool, from: int, diags: Seq<Diag>) -> bool
    decreases te, 1nat,
{
    match te {
        TypeExpr::Name(name, args, span) => {
            let n = name@;
            let k = args@.len();
            if is_cap_spec(n) {
                k == 0 && !cap ==> reported_at(from, diags, "W33"@, span)
            } else if tps.contains(n) {
                true
            } else if is_builtin_type(n) && ((k == 1 && (n == "List"@ || n == "Option"@)) || (k == 2 && n == "Result"@)) {
                caps_refused_list(tps, args@, from, diags)
            } else {
                true
            }
        },
        TypeExpr::Record(fields, _) => caps_refused_fields(tps, fields@, from, diags),
        TypeExpr::Fn(args, ret, _) => caps_refused_list(tps, args@, from, diags) && caps_refused(tps, *ret, false, from, diags),
    }
}

pub open spec fn caps_refused_list(tps: Seq<Seq<char>>, ts: Seq<TypeExpr>, from: int, diags: Seq<Diag>) -> bool
    decreases ts, 0nat,
{
    if ts.len() == 0 {
        true
    } else {
        caps_refused(tps, ts[0], false, from, diags) && caps_refused_list(tps, ts.subrange(1, ts.len() as int), from, diags)
    }
}

pub open spec fn caps_refused_fields(tps: Seq<Seq<char>>, fs: Seq<(String, TypeExpr)>, from: int, diags: Seq<Diag>) -> bool
    decreases fs, 0nat,
{
    if fs.len() == 0 {
        true
    } else {
        caps_refused(tps, fs[0].1, false, from, diags) && caps_refused_fields(tps, fs.subrange(1, fs.len() as int), from, diags)
    }
}

pub proof fn lemma_caps_refused_extend(tps: Seq<Seq<char>>, te: TypeExpr, cap: bool, f0: int, f1: int, a: Seq<Diag>, b: Seq<Diag>)
    requires
        0 <= f0 <= f1,
        caps_refused(tps, te, cap, f1, a),
        a == b || diags_extend(a, b),
    ensures
        caps_refused(tps, te, cap, f0, b),
    decreases te, 1nat,
{
    match te {
        TypeExpr::Name(name, args, span) => {
            let n = name@;
            let k = args@.len();
            if is_cap_spec(n) {
                if k == 0 && !cap {
                    if a != b {
                        lemma_reported_extend(f1, a, b, "W33"@, span);
                    }
                    let j = choose|j: int| f1 <= j < b.len() && (#[trigger] b[j]).rule@ == "W33"@ && b[j].span == span;
                    assert(f0 <= j < b.len() && b[j].rule@ == "W33"@ && b[j].span == span);
                }
            } else if tps.contains(n) {
            } else if is_builtin_type(n) && ((k == 1 && (n == "List"@ || n == "Option"@)) || (k == 2 && n == "Result"@)) {
                lemma_caps_list_extend(tps, args@, f0, f1, a, b);
            }
        },
        TypeExpr::Record(fields, _) => lemma_caps_fields_extend(tps, fields@, f0, f1, a, b),
        TypeExpr::Fn(args, ret, _) => {
            lemma_caps_list_extend(tps, args@, f0, f1, a, b);
            lemma_caps_refused_extend(tps, *ret, false, f0, f1, a, b);
        },
    }
}

proof fn lemma_caps_list_extend(tps: Seq<Seq<char>>, ts: Seq<TypeExpr>, f0: int, f1: int, a: Seq<Diag>, b: Seq<Diag>)
    requires
        0 <= f0 <= f1,
        caps_refused_list(tps, ts, f1, a),
        a == b || diags_extend(a, b),
    ensures
        caps_refused_list(tps, ts, f0, b),
    decreases ts, 0nat,
{
    if ts.len() > 0 {
        lemma_caps_refused_extend(tps, ts[0], false, f0, f1, a, b);
        lemma_caps_list_extend(tps, ts.subrange(1, ts.len() as int), f0, f1, a, b);
    }
}

proof fn lemma_caps_fields_extend(tps: Seq<Seq<char>>, fs: Seq<(String, TypeExpr)>, f0: int, f1: int, a: Seq<Diag>, b: Seq<Diag>)
    requires
        0 <= f0 <= f1,
        caps_refused_fields(tps, fs, f1, a),
        a == b || diags_extend(a, b),
    ensures
        caps_refused_fields(tps, fs, f0, b),
    decreases fs, 0nat,
{
    if fs.len() > 0 {
        lemma_caps_refused_extend(tps, fs[0].1, false, f0, f1, a, b);
        lemma_caps_fields_extend(tps, fs.subrange(1, fs.len() as int), f0, f1, a, b);
    }
}

proof fn lemma_caps_list_all(tps: Seq<Seq<char>>, ts: Seq<TypeExpr>, from: int, diags: Seq<Diag>)
    requires
        forall|j: int| 0 <= j < ts.len() ==> caps_refused(tps, #[trigger] ts[j], false, from, diags),
    ensures
        caps_refused_list(tps, ts, from, diags),
    decreases ts.len(),
{
    if ts.len() > 0 {
        let rest = ts.subrange(1, ts.len() as int);
        assert forall|j: int| 0 <= j < rest.len() implies caps_refused(tps, #[trigger] rest[j], false, from, diags) by {
            assert(rest[j] == ts[j + 1]);
        }
        lemma_caps_list_all(tps, rest, from, diags);
    }
}

proof fn lemma_caps_fields_all(tps: Seq<Seq<char>>, fs: Seq<(String, TypeExpr)>, from: int, diags: Seq<Diag>)
    requires
        forall|j: int| 0 <= j < fs.len() ==> caps_refused(tps, (#[trigger] fs[j]).1, false, from, diags),
    ensures
        caps_refused_fields(tps, fs, from, diags),
    decreases fs.len(),
{
    if fs.len() > 0 {
        let rest = fs.subrange(1, fs.len() as int);
        assert forall|j: int| 0 <= j < rest.len() implies caps_refused(tps, (#[trigger] rest[j]).1, false, from, diags) by {
            assert(rest[j] == fs[j + 1]);
        }
        lemma_caps_fields_all(tps, rest, from, diags);
    }
}

/// `r` is what the written type `te` denotes under `sc`, with the type
/// parameters `tps` in scope, capabilities allowed at the top when `cap`,
/// and the aliases `exp` being expanded. The poison type stands where the
/// checker reports a diagnostic instead.
pub open spec fn conv_rel(
    sc: TypeScope,
    te: TypeExpr,
    tps: Seq<Seq<char>>,
    cap: bool,
    exp: Seq<Seq<char>>,
    r: TyV,
) -> bool
    decreases unexpanded(sc.1, exp), te, 1nat,
{
    match te {
        TypeExpr::Name(name, args, _) => {
            let n = name@;
            let k = args@.len();
            if is_cap_spec(n) {
                if k > 0 || !cap {
                    r == TyV::Error
                } else {
                    r == TyV::Cap(n)
                }
            } else if tps.contains(n) {
                if k > 0 {
                    r == TyV::Error
                } else {
                    r == TyV::Rigid(n)
                }
            } else if is_builtin_type(n) {
                if k == 0 && n == "Int"@ {
                    r == TyV::Int
                } else if k == 0 && n == "Float"@ {
                    r == TyV::Float
                } else if k == 0 && n == "Bool"@ {
                    r == TyV::Bool
                } else if k == 0 && n == "Text"@ {
                    r == TyV::Text
                } else if k == 0 && n == "Unit"@ {
                    r == TyV::Unit
                } else if k == 1 && n == "List"@ {
                    r is List && conv_rel(sc, args@[0], tps, false, exp, *r->List_0)
                } else if k == 1 && n == "Option"@ {
                    r is Opt && conv_rel(sc, args@[0], tps, false, exp, *r->Opt_0)
                } else if k == 2 && n == "Result"@ {
                    r is Res && conv_rel(sc, args@[0], tps, false, exp, *r->Res_0) && conv_rel(
                        sc,
                        args@[1],
                        tps,
                        false,
                        exp,
                        *r->Res_1,
                    )
                } else {
                    r == TyV::Error
                }
            } else if sc.2.contains(n) || sc.3.contains(n) {
                if k > 0 {
                    r == TyV::Error
                } else {
                    r == TyV::Named(n)
                }
            } else {
                match alias_item(sc.1, n) {
                    Some(idx) => if k > 0 || exp.contains(n) {
                        r == TyV::Error
                    } else {
                        match alias_body(sc.0, idx) {
                            Some(b) => {
                                proof {
                                    lemma_alias_item_some(sc.1, n);
                                    lemma_unexpanded_push(sc.1, exp, n);
                                }
                                conv_rel(sc, b, tps, cap, exp.push(n), r)
                            },
                            None => r == TyV::Error,
                        }
                    },
                    None => r == TyV::Error,
                }
            }
        },
        TypeExpr::Record(fields, _) => r is Rec && sorted_names(r->Rec_0) && exists|out: Seq<(Seq<char>, TyV)>|
            conv_fields(sc, fields@, tps, exp, out) && same_by_name(r->Rec_0, out),
        TypeExpr::Fn(args, ret, _) => r is Fn && conv_list(sc, args@, tps, exp, r->Fn_0) && conv_rel(
            sc,
            *ret,
            tps,
            false,
            exp,
            *r->Fn_1,
        ),
    }
}

/// Each written type of `args` denotes the type at its place in `outs`.
pub open spec fn conv_list(
    sc: TypeScope,
    args: Seq<TypeExpr>,
    tps: Seq<Seq<char>>,
    exp: Seq<Seq<char>>,
    outs: Seq<TyV>,
) -> bool
    decreases unexpanded(sc.1, exp), args, 0nat,
{
    if args.len() == 0 {
        outs.len() == 0
    } else {
        outs.len() > 0 && conv_rel(sc, args[0], tps, false, exp, outs[0]) && conv_list(
            sc,
            args.subrange(1, args.len() as int),
            tps,
            exp,
            outs.subrange(1, outs.len() as int),
        )
    }
}

/// Each written field of `fields` denotes the entry at its place in `outs`.
pub open spec fn conv_fields(
    sc: TypeScope,
    fields: Seq<(String, TypeExpr)>,
    tps: Seq<Seq<char>>,
    exp: Seq<Seq<char>>,
    outs: Seq<(Seq<char>, TyV)>,
) -> bool
    decreases unexpanded(sc.1, exp), fields, 0nat,
{
    if fields.len() == 0 {
        outs.len() == 0
    } else {
        outs.len() > 0 && outs[0].0 == fields[0].0@ && conv_rel(sc, fields[0].1, tps, false, exp, outs[0].1)
            && conv_fields(sc, fields.subrange(1, fields.len() as int), tps, exp, outs.subrange(1, outs.len() as int))
    }
}

pub proof fn lemma_alias_item(aliases: Seq<(String, usize)>, n: Seq<char>, k: int)
    requires
        0 <= k <= aliases.len(),
        forall|j: int| 0 <= j < k ==> (#[trigger] aliases[j]).0@ != n,
    ensures
        k < aliases.len() && aliases[k].0@ == n ==> alias_item(aliases, n) == Some(aliases[k].1),
        k == aliases.len() ==> alias_item(aliases, n) is None,
    decreases k,
{
    if k > 0 {
        assert(aliases[0].0@ != n);
        assert forall|j: int| 0 <= j < k - 1 implies (#[trigger] aliases.drop_first()[j]).0@ != n by {
            assert(aliases.drop_first()[j] == aliases[j + 1]);
        }
        lemma_alias_item(aliases.drop_first(), n, k - 1);
    }
}

proof fn lemma_strs_contains(v: Seq<String>, n: Seq<char>)
    ensures
        strs_view(v).contains(n) <==> exists|k: int| 0 <= k < v.len() && (#[trigger] v[k])@ == n,
{
    if strs_view(v).contains(n) {
        let j = choose|j: int| 0 <= j < strs_view(v).len() && strs_view(v)[j] == n;
        assert(v[j]@ == n);
    }
    if exists|k: int| 0 <= k < v.len() && (#[trigger] v[k])@ == n {
        let j = choose|k: int| 0 <= k < v.len() && (#[trigger] v[k])@ == n;
        assert(strs_view(v)[j] == n);
    }
}

proof fn lemma_conv_list(sc: TypeScope, args: Seq<TypeExpr>, tps: Seq<Seq<char>>, exp: Seq<Seq<char>>, outs: Seq<TyV>)
    requires
        outs.len() == args.len(),
        forall|j: int| 0 <= j < args.len() ==> conv_rel(sc, #[trigger] args[j], tps, false, exp, outs[j]),
    ensures
        conv_list(sc, args, tps, exp, outs),
    decreases args.len(),
{
    if args.len() > 0 {
        let a1 = args.subrange(1, args.len() as int);
        let o1 = outs.subrange(1, outs.len() as int);
        assert forall|j: int| 0 <= j < a1.len() implies conv_rel(sc, #[trigger] a1[j], tps, false, exp, o1[j]) by {
            assert(a1[j] == args[j + 1]);
            assert(o1[j] == outs[j + 1]);
        }
        lemma_conv_list(sc, a1, tps, exp, o1);
        assert(conv_rel(sc, args[0], tps, false, exp, outs[0]));
    }
}

proof fn lemma_conv_fields(
    sc: TypeScope,
    fields: Seq<(String, TypeExpr)>,
    tps: Seq<Seq<char>>,
    exp: Seq<Seq<char>>,
    outs: Seq<(Seq<char>, TyV)>,
)
    requires
        outs.len() == fields.len(),
        forall|j: int| 0 <= j < fields.len() ==> (#[trigger] outs[j]).0 == fields[j].0@ && conv_rel(sc, fields[j].1, tps, false, exp, outs[j].1),
    ensures
        conv_fields(sc, fields, tps, exp, outs),
    decreases fields.len(),
{
    if fields.len() > 0 {
        let f1 = fields.subrange(1, fields.len() as int);
        let o1 = outs.subrange(1, outs.len() as int);
        assert forall|j: int| 0 <= j < f1.len() implies (#[trigger] o1[j]).0 == f1[j].0@ && conv_rel(sc, f1[j].1, tps, false, exp, o1[j].1) by {
            assert(f1[j] == fields[j + 1]);
            assert(o1[j] == outs[j + 1]);
        }
        lemma_conv_fields(sc, f1, tps, exp, o1);
        assert(outs[0].0 == fields[0].0@);
    }
}

/// The view of a field list is its entries taken by their views.
proof fn lemma_fields_map(s: Seq<(String, Ty)>)
    ensures
        fields_view(s) == s.map_values(|e: (String, Ty)| e@),
{
    lemma_fields_view(s);
    assert(fields_view(s) =~= s.map_values(|e: (String, Ty)| e@));
}

/// A stable sort by name, seen through the views: still in name order and
/// holding the same entries of each name in the same order.
pub proof fn lemma_sorted_view(out: Seq<(String, Ty)>, r: Seq<(String, Ty)>)
    requires
        sorted_by_name(r),
        forall|n: Seq<char>| #[trigger] with_name(r, n) == with_name(out, n),
    ensures
        sorted_names(fields_view(r)),
        same_by_name(fields_view(r), fields_view(out)),
{
    lemma_fields_view(r);
    lemma_fields_map(r);
    lemma_fields_map(out);
    assert forall|i: int, j: int| 0 <= i < j < fields_view(r).len() implies !lex_lt(
        #[trigger] fields_view(r)[j].0,
        #[trigger] fields_view(r)[i].0,
    ) by {
        assert(!lex_lt(r[j].0@, r[i].0@));
    }
    assert forall|n: Seq<char>| #[trigger] fields_view(r).filter(has_name(n)) == fields_view(out).filter(has_name(n)) by {
        vstd::seq_lib::lemma_filter_view_commute(r, named::<Ty>(n), has_name(n));
        vstd::seq_lib::lemma_filter_view_commute(out, named::<Ty>(n), has_name(n));
        assert(with_name(r, n) == with_name(out, n));
    }
}

impl<'a> Checker<'a> {
    /// Convert a syntactic type to an internal one, expanding aliases and
    /// enforcing where capabilities may appear. A poison result always comes
    /// with a new diagnostic.
    #[verifier::loop_isolation(false)]
    pub fn conv_type(&mut self, te: &TypeExpr, tparams: &Vec<String>, allow_cap: bool, expanding: &mut Vec<String>) -> (r: Ty)
        ensures
            final(self).vars == old(self).vars,
            final(self).same_context(old(self)),
            final(self).holes == old(self).holes,
            final(expanding)@ == old(expanding)@,
            diags_extend(old(self).diags@, final(self).diags@),
            r@ == TyV::Error ==> final(self).diags@.len() > old(self).diags@.len(),
            conv_rel(old(self).type_scope(), *te, strs_view(tparams@), allow_cap, strs_view(old(expanding)@), r@),
            name_refusal(old(self).type_scope(), *te, strs_view(tparams@), allow_cap, strs_view(old(expanding)@))
                matches Some(rule) ==> final(self).diags@.len() == old(self).diags@.len() + 1 && final(self).diags@.last().rule@
                == rule && final(self).diags@.last().span == texpr_span(*te),
            name_plain(old(self).type_scope(), *te, strs_view(tparams@), allow_cap) ==> final(self).diags@ == old(
                self,
            ).diags@,
            caps_refused(strs_view(tparams@), *te, allow_cap, old(self).diags@.len() as int, final(self).diags@),
        decreases unexpanded(old(self).aliases@, strs_view(old(expanding)@)), *te,
    {
        let ghost d0 = self.diags@;
        let ghost sc = self.type_scope();
        let ghost tps = strs_view(tparams@);
        let ghost exp = strs_view(expanding@);
        proof {
            assert(d0.subrange(0, d0.len() as int) =~= d0);
        }
        match te {
            TypeExpr::Name(name, args, span) => {
                let n = name.as_str();
                if is_cap_name(n) {
                    if args.len() > 0 {
                        return self.report_err("W30", cat3("`", n, "` takes no type arguments"), *span);
                    }
                    if !allow_cap {
                        let d = Diag::new("W33", cat3("capability type `", n, "` may only appear as a function parameter"), *span)
                            .hint(owned("capabilities cannot be stored, returned, or captured"));
                        self.report(d);
                        proof {
                            assert(self.diags@.subrange(0, d0.len() as int) =~= d0);
                            assert(self.diags@[d0.len() as int].rule@ == "W33"@);
                            assert(reported_at(d0.len() as int, self.diags@, "W33"@, *span));
                        }
                        return Ty::Error;
                    }
                    return Ty::Cap(copy_string(name));
                }
                proof {
                    lemma_strs_contains(tparams@, n@);
                }
                if contains_name(tparams, n) {
                    if args.len() > 0 {
                        return self.report_err("W13", cat3("type parameter `", n, "` takes no arguments"), *span);
                    }
                    return Ty::Rigid(copy_string(name));
                }
                let k = args.len();
                let builtin = str_eq(n, "Int") || str_eq(n, "Float") || str_eq(n, "Bool") || str_eq(n, "Text")
                    || str_eq(n, "Unit") || str_eq(n, "List") || str_eq(n, "Option") || str_eq(n, "Result");
                if builtin {
                    if k == 0 && str_eq(n, "Int") {
                        return Ty::Int;
                    } else if k == 0 && str_eq(n, "Float") {
                        return Ty::Float;
                    } else if k == 0 && str_eq(n, "Bool") {
                        return Ty::Bool;
                    } else if k == 0 && str_eq(n, "Text") {
                        return Ty::Text;
                    } else if k == 0 && str_eq(n, "Unit") {
                        return Ty::Unit;
                    } else if k == 1 && str_eq(n, "List") {
                        let inner = self.conv_type(&args[0], tparams, false, expanding);
                        proof {
                            assert(args@.subrange(1, 1).len() == 0);
                            assert(caps_refused_list(tps, args@.subrange(1, 1), d0.len() as int, self.diags@));
                            assert(caps_refused_list(tps, args@, d0.len() as int, self.diags@));
                        }
                        return Ty::List(Box::new(inner));
                    } else if k == 1 && str_eq(n, "Option") {
                        let inner = self.conv_type(&args[0], tparams, false, expanding);
                        proof {
                            assert(args@.subrange(1, 1).len() == 0);
                            assert(caps_refused_list(tps, args@.subrange(1, 1), d0.len() as int, self.diags@));
                            assert(caps_refused_list(tps, args@, d0.len() as int, self.diags@));
                        }
                        return Ty::Opt(Box::new(inner));
                    } else if k == 2 && str_eq(n, "Result") {
                        let a = self.conv_type(&args[0], tparams, false, expanding);
                        let ghost d1 = self.diags@;
                        let b = self.conv_type(&args[1], tparams, false, expanding);
                        proof {
                            lemma_diags_extend_trans(d0, d1, self.diags@);
                            lemma_caps_refused_extend(tps, args@[0], false, d0.len() as int, d0.len() as int, d1, self.diags@);
                            lemma_caps_refused_extend(tps, args@[1], false, d0.len() as int, d1.len() as int, self.diags@, self.diags@);
                            let rest = args@.subrange(1, 2);
                            assert(rest[0] == args@[1]);
                            assert(rest.subrange(1, 1).len() == 0);
                            assert(caps_refused_list(tps, rest.subrange(1, 1), d0.len() as int, self.diags@));
                            assert(caps_refused_list(tps, rest, d0.len() as int, self.diags@));
                            assert(caps_refused_list(tps, args@, d0.len() as int, self.diags@));
                        }
                        return Ty::Res(Box::new(a), Box::new(b));
                    } else {
                        return self.report_err("W9", cat3("wrong number of type arguments for `", n, "`"), *span);
                    }
                }
                proof {
                    lemma_keys_of(self.variants@, n@);
                    lemma_keys_of(self.nominals@, n@);
                }
                if find_key(&self.variants, n).is_some() || find_key(&self.nominals, n).is_some() {
                    if args.len() > 0 {
                        return self.report_err("W12", cat3("`", n, "` takes no type arguments"), *span);
                    }
                    return Ty::Named(copy_string(name));
                }
                match find_key(&self.aliases, n) {
                    Some(ai) => {
                        proof {
                            lemma_alias_item(self.aliases@, n@, ai as int);
                            lemma_strs_contains(expanding@, n@);
                        }
                        if args.len() > 0 {
                            return self.report_err("W11", cat3("alias `", n, "` takes no type arguments"), *span);
                        }
                        if contains_name(expanding, n) {
                            return self.report_err("W11", cat3("type alias `", n, "` refers to itself"), *span);
                        }
                        let idx = self.aliases[ai].1;
                        let prog = self.prog;
                        if idx < prog.items.len() {
                            if let Item::TypeDef(td) = &prog.items[idx] {
                                if let TypeDecl::Alias(body) = &td.decl {
                                    expanding.push(copy_string(name));
                                    proof {
                                        assert(strs_view(expanding@) =~= exp.push(n@));
                                        lemma_alias_item_some(self.aliases@, n@);
                                        lemma_unexpanded_push(self.aliases@, exp, n@);
                                    }
                                    let t = self.conv_type(body, tparams, allow_cap, expanding);
                                    expanding.pop();
                                    proof {
                                        assert(expanding@ =~= old(expanding)@);
                                    }
                                    return t;
                                }
                            }
                        }
                        self.report_err("W9", cat3("unknown type `", n, "`"), *span)
                    }
                    None => {
                        proof {
                            lemma_alias_item(self.aliases@, n@, self.aliases@.len() as int);
                        }
                        self.report_err("W9", cat3("unknown type `", n, "`"), *span)
                    }
                }
            }
            TypeExpr::Record(fields, _) => {
                let mut out: Vec<(String, Ty)> = Vec::new();
                let mut i: usize = 0;
                while i < fields.len()
                    invariant
                        i <= fields@.len(),
                        self.vars == old(self).vars,
                        self.same_context(old(self)),
                        self.holes == old(self).holes,
                        expanding@ == old(expanding)@,
                        diags_extend(d0, self.diags@),
                        out@.len() == i,
                        forall|j: int| 0 <= j < i ==> (#[trigger] out@[j]).0@ == fields@[j].0@ && conv_rel(sc, fields@[j].1, tps, false, exp, out@[j].1@),
                        forall|j: int| 0 <= j < i ==> caps_refused(tps, (#[trigger] fields@[j]).1, false, d0.len() as int, self.diags@),
                    decreases fields.len() - i,
                {
                    let ghost d1 = self.diags@;
                    proof {
                        assert(decreases_to!(fields => fields@[i as int]));
                        assert(decreases_to!(fields@[i as int] => fields@[i as int].1));
                    }
                    let t = self.conv_type(&fields[i].1, tparams, false, expanding);
                    proof {
                        lemma_diags_extend_trans(d0, d1, self.diags@);
                        assert forall|j: int| 0 <= j < i + 1 implies caps_refused(tps, (#[trigger] fields@[j]).1, false, d0.len() as int, self.diags@) by {
                            if j < i {
                                lemma_caps_refused_extend(tps, fields@[j].1, false, d0.len() as int, d0.len() as int, d1, self.diags@);
                            } else {
                                lemma_caps_refused_extend(tps, fields@[j].1, false, d0.len() as int, d1.len() as int, self.diags@, self.diags@);
                            }
                        }
                    }
                    out.push((copy_string(&fields[i].0), t));
                    i += 1;
                }
                let sorted = sort_by_name(out);
                proof {
                    lemma_caps_fields_all(tps, fields@, d0.len() as int, self.diags@);
                    lemma_fields_view(out@);
                    lemma_conv_fields(sc, fields@, tps, exp, fields_view(out@));
                    lemma_sorted_view(out@, sorted@);
                    let w = fields_view(out@);
                    assert(conv_fields(sc, fields@, tps, exp, w) && same_by_name(fields_view(sorted@), w));
                    assert(Ty::Rec(sorted)@ == TyV::Rec(fields_view(sorted@)));
                }
                Ty::Rec(sorted)
            }
            TypeExpr::Fn(args, ret, _) => {
                let mut out: Vec<Ty> = Vec::new();
                let mut i: usize = 0;
                while i < args.len()
                    invariant
                        i <= args@.len(),
                        self.vars == old(self).vars,
                        self.same_context(old(self)),
                        self.holes == old(self).holes,
                        expanding@ == old(expanding)@,
                        diags_extend(d0, self.diags@),
                        out@.len() == i,
                        forall|j: int| 0 <= j < i ==> conv_rel(sc, #[trigger] args@[j], tps, false, exp, out@[j]@),
                        forall|j: int| 0 <= j < i ==> caps_refused(tps, #[trigger] args@[j], false, d0.len() as int, self.diags@),
                    decreases args.len() - i,
                {
                    let ghost d1 = self.diags@;
                    proof {
                        assert(decreases_to!(args => args@[i as int]));
                    }
                    let t = self.conv_type(&args[i], tparams, false, expanding);
                    proof {
                        lemma_diags_extend_trans(d0, d1, self.diags@);
                        assert forall|j: int| 0 <= j < i + 1 implies caps_refused(tps, #[trigger] args@[j], false, d0.len() as int, self.diags@) by {
                            if j < i {
                                lemma_caps_refused_extend(tps, args@[j], false, d0.len() as int, d0.len() as int, d1, self.diags@);
                            } else {
                                lemma_caps_refused_extend(tps, args@[j], false, d0.len() as int, d1.len() as int, self.diags@, self.diags@);
                            }
                        }
                    }
                    out.push(t);
                    i += 1;
                }
                let ghost d2 = self.diags@;
                let r = self.conv_type(ret, tparams, false, expanding);
                proof {
                    lemma_diags_extend_trans(d0, d2, self.diags@);
                    lemma_caps_list_all(tps, args@, d0.len() as int, d2);
                    lemma_caps_list_extend(tps, args@, d0.len() as int, d0.len() as int, d2, self.diags@);
                    lemma_caps_refused_extend(tps, **ret, false, d0.len() as int, d2.len() as int, self.diags@, self.diags@);
                }
                proof {
                    lemma_tys_view(out@);
                    lemma_conv_list(sc, args@, tps, exp, tys_view(out@));
                }
                Ty::Fn(out, Box::new(r))
            }
        }
    }

}

} // verus!
