//! How written types are displayed: the text of a written type made of
//! base types, lists, options, results and functions is the display form of
//! the type it denotes.
use vstd::prelude::*;
use crate::ast::TypeExpr;
use crate::convert::{conv_list, conv_rel, is_builtin_type, is_cap_spec, TypeScope};
use crate::index::{type_text_spec, types_text};
use crate::types::{show_spec, show_tys, walk, TyV};

verus! {

/// A written type made of the base types, `List`, `Option`, `Result` and
/// function types only.
pub open spec fn plain_type(te: TypeExpr) -> bool
    decreases te, 1nat,
{
    match te {
        TypeExpr::Name(n, args, _) => {
            let k = args@.len();
            ||| k == 0 && (n@ == "Int"@ || n@ == "Float"@ || n@ == "Bool"@ || n@ == "Text"@ || n@ == "Unit"@)
            ||| k == 1 && (n@ == "List"@ || n@ == "Option"@) && plain_type(args@[0])
            ||| k == 2 && n@ == "Result"@ && plain_type(args@[0]) && plain_type(args@[1])
        },
        TypeExpr::Record(..) => false,
        TypeExpr::Fn(args, ret, _) => plain_types(args@) && plain_type(*ret),
    }
}

pub open spec fn plain_types(ts: Seq<TypeExpr>) -> bool
    decreases ts, 0nat,
{
    if ts.len() == 0 {
        true
    } else {
        plain_type(ts[0]) && plain_types(ts.subrange(1, ts.len() as int))
    }
}

/// How deeply a written type nests.
pub open spec fn type_height(te: TypeExpr) -> nat
    decreases te, 1nat,
{
    match te {
        TypeExpr::Name(_, args, _) => 1 + types_height(args@),
        TypeExpr::Record(..) => 1,
        TypeExpr::Fn(args, ret, _) => {
            let a = types_height(args@);
            let r = type_height(*ret);
            1 + if a < r { r } else { a }
        },
    }
}

pub open spec fn types_height(ts: Seq<TypeExpr>) -> nat
    decreases ts, 0nat,
{
    if ts.len() == 0 {
        0
    } else {
        let a = type_height(ts[0]);
        let b = types_height(ts.subrange(1, ts.len() as int));
        if a < b { b } else { a }
    }
}

/// The display form of the type a plain written type denotes is the
/// written type's own text: converting a type and showing it gives back
/// what was written (to a display depth of at least the type's nesting).
pub proof fn lemma_show_conv_plain(
    sc: TypeScope,
    te: TypeExpr,
    exp: Seq<Seq<char>>,
    t: TyV,
    st: Seq<Option<TyV>>,
    f: nat,
)
    requires
        plain_type(te),
        conv_rel(sc, te, seq![], false, exp, t),
        type_height(te) <= f,
    ensures
        show_spec(st, t, f) == type_text_spec(te),
    decreases te, 1nat,
{
    reveal_strlit("Int");
    reveal_strlit("Float");
    reveal_strlit("Bool");
    reveal_strlit("Text");
    reveal_strlit("Unit");
    reveal_strlit("List");
    reveal_strlit("Option");
    reveal_strlit("Result");
    reveal_strlit("Io");
    reveal_strlit("Fs");
    reveal_strlit("Rand");
    reveal_strlit("Clock");
    reveal_strlit("Model");
    reveal_strlit("List[");
    reveal_strlit("Option[");
    reveal_strlit("Result[");
    reveal_strlit("]");
    reveal_strlit(", ");
    reveal_strlit("(");
    let f1 = (f - 1) as nat;
    match te {
        TypeExpr::Name(n, args, _) => {
            lemma_plain_name(n@);
            assert(!seq![].contains(n@));
            assert(!(t is Var));
            assert(walk(st, t, st.len()) == t);
            if args@.len() == 1 {
                lemma_types_height(args@, 0);
                if n@ == "List"@ {
                    lemma_show_conv_plain(sc, args@[0], exp, *t->List_0, st, f1);
                } else {
                    lemma_show_conv_plain(sc, args@[0], exp, *t->Opt_0, st, f1);
                }
                assert(types_text(args@) == type_text_spec(args@[0]));
            } else if args@.len() == 2 {
                lemma_types_height(args@, 0);
                lemma_types_height(args@, 1);
                lemma_show_conv_plain(sc, args@[0], exp, *t->Res_0, st, f1);
                lemma_show_conv_plain(sc, args@[1], exp, *t->Res_1, st, f1);
                assert(args@.subrange(1, 2)[0] == args@[1]);
                assert(args@.subrange(1, 2).len() == 1);
                assert(types_text(args@.subrange(1, 2)) == type_text_spec(args@[1]));
                assert(types_text(args@) == type_text_spec(args@[0]) + ", "@ + type_text_spec(args@[1]));
            } else {
                assert(args@.len() == 0);
                assert(show_spec(st, t, f) == n@);
            }
        },
        TypeExpr::Record(..) => {},
        TypeExpr::Fn(args, ret, _) => {
            assert(walk(st, t, st.len()) == t);
            lemma_show_conv_plain(sc, *ret, exp, *t->Fn_1, st, f1);
            lemma_show_conv_plain_list(sc, args@, exp, t->Fn_0, st, f1);
        },
    }
}

proof fn lemma_show_conv_plain_list(
    sc: TypeScope,
    ts: Seq<TypeExpr>,
    exp: Seq<Seq<char>>,
    outs: Seq<TyV>,
    st: Seq<Option<TyV>>,
    f: nat,
)
    requires
        plain_types(ts),
        conv_list(sc, ts, seq![], exp, outs),
        types_height(ts) <= f,
    ensures
        outs.len() == ts.len(),
        show_tys(st, outs, f) == types_text(ts),
    decreases ts, 0nat,
{
    if ts.len() > 0 {
        let rest = ts.subrange(1, ts.len() as int);
        let orest = outs.subrange(1, outs.len() as int);
        lemma_show_conv_plain(sc, ts[0], exp, outs[0], st, f);
        lemma_show_conv_plain_list(sc, rest, exp, orest, st, f);
        if ts.len() == 1 {
            assert(outs.len() == 1);
        } else {
            assert(orest.len() > 0);
        }
    }
}

proof fn lemma_types_height(ts: Seq<TypeExpr>, i: int)
    requires
        0 <= i < ts.len(),
    ensures
        type_height(ts[i]) <= types_height(ts),
    decreases ts.len(),
{
    if i > 0 {
        let rest = ts.subrange(1, ts.len() as int);
        lemma_types_height(rest, i - 1);
        assert(rest[i - 1] == ts[i]);
    }
}

proof fn lemma_plain_name(n: Seq<char>)
    requires
        n == "Int"@ || n == "Float"@ || n == "Bool"@ || n == "Text"@ || n == "Unit"@ || n == "List"@ || n == "Option"@
            || n == "Result"@,
    ensures
        !is_cap_spec(n),
        is_builtin_type(n),
{
    reveal_strlit("Int");
    reveal_strlit("Float");
    reveal_strlit("Bool");
    reveal_strlit("Text");
    reveal_strlit("Unit");
    reveal_strlit("List");
    reveal_strlit("Option");
    reveal_strlit("Result");
    reveal_strlit("Io");
    reveal_strlit("Fs");
    reveal_strlit("Rand");
    reveal_strlit("Clock");
    reveal_strlit("Model");
    assert("Io"@.len() == 2 && "Fs"@.len() == 2 && "Rand"@[0] == 'R' && "Clock"@[0] == 'C' && "Model"@[0] == 'M');
    assert("Rand"@.len() == 4 && "Clock"@.len() == 5 && "Model"@.len() == 5);
    assert(n.len() >= 3);
    assert(n.len() != 2);
    assert(n.len() == 4 ==> n[0] != 'R');
    assert(n.len() == 5 ==> n[0] == 'F');
    assert(n != "Io"@ && n != "Fs"@);
    assert(n != "Rand"@);
    assert(n != "Clock"@);
    assert(n != "Model"@);
}

} // verus!
