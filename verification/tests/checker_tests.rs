use weftc::check::check_program;
use weftc::parser::parse_source;
use weftc::lines::line_col;
use weftc::types::Ty;

/// The hints of the non-exhaustive-match diagnostics a program gets.
fn unhandled(src: &str) -> Vec<String> {
    let prog = match parse_source(src) {
        Ok(p) => p,
        Err(d) => panic!("parse failed: {} {}", d.rule, d.message),
    };
    let r = check_program(&prog);
    r.diags
        .iter()
        .filter(|d| d.rule == "W24")
        .map(|d| {
            assert_eq!(d.message, "match is not exhaustive");
            d.hint.clone().unwrap_or_default()
        })
        .collect()
}

const MAIN: &str = "\ndef main(io: Io) -> Int = 0\n";

#[test]
fn bool_match_needs_both_literals() {
    let src = format!("def f(b: Bool) -> Int = match b {{ true => 1 }}{}", MAIN);
    assert_eq!(unhandled(&src), vec!["unhandled: false".to_string()]);
    let src = format!("def f(b: Bool) -> Int = match b {{ true => 1, false => 0 }}{}", MAIN);
    assert!(unhandled(&src).is_empty());
}

#[test]
fn option_and_result_need_both_variants() {
    let src = format!("def f(o: Option[Int]) -> Int = match o {{ Some(x) => x }}{}", MAIN);
    assert_eq!(unhandled(&src), vec!["unhandled: None".to_string()]);
    let src = format!("def f(o: Result[Int, Text]) -> Int = match o {{ Err(_) => 0 }}{}", MAIN);
    assert_eq!(unhandled(&src), vec!["unhandled: Ok".to_string()]);
}

#[test]
fn variant_match_lists_every_missing_constructor_in_order() {
    let src = format!(
        "type Shape = Circle(Int) | Square(Int) | Dot\ndef f(s: Shape) -> Int = match s {{ Square(w) => w }}{}",
        MAIN
    );
    assert_eq!(unhandled(&src), vec!["unhandled: Circle, Dot".to_string()]);
    let src = format!(
        "type Shape = Circle(Int) | Square(Int) | Dot\ndef f(s: Shape) -> Int = match s {{ Square(w) => w, x => 0 }}{}",
        MAIN
    );
    assert!(unhandled(&src).is_empty());
}

#[test]
fn list_match_needs_a_rest_arm_and_the_short_lengths() {
    let src = format!("def f(xs: List[Int]) -> Int = match xs {{ [x, y, ..rest] => x, [a] => a }}{}", MAIN);
    assert_eq!(unhandled(&src), vec!["unhandled: lists of length 0".to_string()]);
    let src = format!("def f(xs: List[Int]) -> Int = match xs {{ [] => 0 }}{}", MAIN);
    assert_eq!(unhandled(&src), vec!["unhandled: longer lists (add a `[x, ..rest]` or `_` arm)".to_string()]);
    let src = format!("def f(xs: List[Int]) -> Int = match xs {{ [] => 0, [x, ..rest] => x }}{}", MAIN);
    assert!(unhandled(&src).is_empty());
}

#[test]
fn other_types_need_a_catch_all() {
    let src = format!("def f(n: Int) -> Int = match n {{ 0 => 1 }}{}", MAIN);
    assert_eq!(unhandled(&src), vec!["unhandled: add a catch-all `_` arm".to_string()]);
    let src = format!("def f(n: Int) -> Int = match n {{ 0 => 1, _ => 2 }}{}", MAIN);
    assert!(unhandled(&src).is_empty());
}

/// The W7 diagnostics a program gets, as (message, span start).
fn duplicates(src: &str) -> Vec<(String, usize)> {
    let prog = match parse_source(src) {
        Ok(p) => p,
        Err(d) => panic!("parse failed: {} {}", d.rule, d.message),
    };
    check_program(&prog)
        .diags
        .iter()
        .filter(|d| d.rule == "W7")
        .map(|d| (d.message.clone(), d.span.start))
        .collect()
}

#[test]
fn repeated_top_level_names_are_reported() {
    let src = "def f(x: Int) -> Int = x\ndef f(y: Int) -> Int = y\ndef main(io: Io) -> Int = 0\n";
    assert_eq!(duplicates(src), vec![("duplicate top-level name `f`".to_string(), 25)]);
    let src = "type T = Int\ntype T = Text\ndef main(io: Io) -> Int = 0\n";
    assert_eq!(duplicates(src), vec![("duplicate top-level name `T`".to_string(), 13)]);
    assert!(duplicates("def f(x: Int) -> Int = x\ndef main(io: Io) -> Int = 0\n").is_empty());
}

#[test]
fn pattern_binders_are_in_scope_in_their_arm_only() {
    let src = "def f(o: Option[Int]) -> Int = match o { Some(x) => x, None => 0 }\ndef main(io: Io) -> Int = 0\n";
    let prog = match parse_source(src) {
        Ok(p) => p,
        Err(d) => panic!("parse failed: {}", d.message),
    };
    assert!(check_program(&prog).diags.is_empty());
    let src = "def f(o: Option[Int]) -> Int = match o { Some(x) => x, None => x }\ndef main(io: Io) -> Int = 0\n";
    let prog = match parse_source(src) {
        Ok(p) => p,
        Err(d) => panic!("parse failed: {}", d.message),
    };
    let diags = check_program(&prog).diags;
    assert_eq!(diags.len(), 1);
    assert!(diags[0].message.contains("`x`"));
}

#[test]
fn sort_by_name_keeps_equal_names_in_order() {
    let v = vec![("b".to_string(), 1), ("a".to_string(), 2), ("b".to_string(), 3), ("a".to_string(), 4)];
    let r = weftc::sort::sort_by_name(v);
    let got: Vec<(String, i32)> = r.into_iter().collect();
    assert_eq!(
        got,
        vec![("a".to_string(), 2), ("a".to_string(), 4), ("b".to_string(), 1), ("b".to_string(), 3)]
    );
}

fn empty_checker(prog: &weftc::ast::Program) -> weftc::check::Checker<'_> {
    weftc::check::Checker {
        prog,
        aliases: Vec::new(),
        variants: Vec::new(),
        nominals: Vec::new(),
        ctors: Vec::new(),
        sigs: Vec::new(),
        consts: Vec::new(),
        builtins: Vec::new(),
        vars: Vec::new(),
        env: Vec::new(),
        lambda_depth: 0,
        cur_ret: None,
        cur_tparams: Vec::new(),
        in_contract: false,
        diags: Vec::new(),
        holes: Vec::new(),
    }
}

fn named_te(n: &str, args: Vec<weftc::ast::TypeExpr>) -> weftc::ast::TypeExpr {
    weftc::ast::TypeExpr::Name(n.to_string(), args, weftc::diag::Span { start: 0, end: 1 })
}

#[test]
fn written_record_type_converts_in_field_order() {
    let prog = weftc::ast::Program { items: Vec::new() };
    let mut c = empty_checker(&prog);
    let te = weftc::ast::TypeExpr::Record(
        vec![
            ("b".to_string(), named_te("Int", vec![])),
            ("a".to_string(), named_te("List", vec![named_te("Bool", vec![])])),
        ],
        weftc::diag::Span { start: 0, end: 1 },
    );
    let mut seen = Vec::new();
    let t = c.conv_type(&te, &Vec::new(), false, &mut seen);
    assert_eq!(format!("{:?}", t), "Rec([(\"a\", List(Bool)), (\"b\", Int)])");
    assert!(c.diags.is_empty());
}

#[test]
fn capability_type_only_where_allowed() {
    let prog = weftc::ast::Program { items: Vec::new() };
    let mut c = empty_checker(&prog);
    let mut seen = Vec::new();
    let t = c.conv_type(&named_te("Io", vec![]), &Vec::new(), true, &mut seen);
    assert_eq!(format!("{:?}", t), "Cap(\"Io\")");
    assert!(c.diags.is_empty());
    let t = c.conv_type(&named_te("Io", vec![]), &Vec::new(), false, &mut seen);
    assert_eq!(format!("{:?}", t), "Error");
    assert_eq!(c.diags.len(), 1);
    assert_eq!(c.diags[0].rule, "W33");
}

#[test]
fn type_parameter_and_unknown_names() {
    let prog = weftc::ast::Program { items: Vec::new() };
    let mut c = empty_checker(&prog);
    let mut seen = Vec::new();
    let tps = vec!["T".to_string()];
    let t = c.conv_type(&named_te("Option", vec![named_te("T", vec![])]), &tps, false, &mut seen);
    assert_eq!(format!("{:?}", t), "Opt(Rigid(\"T\"))");
    assert!(c.diags.is_empty());
    let t = c.conv_type(&named_te("Widget", vec![]), &tps, false, &mut seen);
    assert_eq!(format!("{:?}", t), "Error");
    assert_eq!(c.diags[0].rule, "W9");
}

fn diag_rules(src: &str) -> Vec<(String, String)> {
    let prog = match parse_source(src) {
        Ok(p) => p,
        Err(d) => panic!("parse failed: {} {}", d.rule, d.message),
    };
    check_program(&prog).diags.iter().map(|d| (d.rule.clone(), d.message.clone())).collect()
}

#[test]
fn unknown_name_is_reported_and_known_names_resolve() {
    let src = format!("def f(x: Int) -> Int = y + x{}", MAIN);
    assert_eq!(diag_rules(&src), vec![("W3".to_string(), "unknown name `y`".to_string())]);
    // a local, a def and a builtin all resolve
    let src = format!("def g(n: Int) -> Int = n\ndef f(x: Int) -> Int = g(x) + len([x]){}", MAIN);
    assert!(diag_rules(&src).is_empty(), "{:?}", diag_rules(&src));
}

#[test]
fn model_is_a_capability_with_a_builtin() {
    let prog = weftc::ast::Program { items: Vec::new() };
    let mut c = empty_checker(&prog);
    let mut seen = Vec::new();
    let t = c.conv_type(&named_te("Model", vec![]), &Vec::new(), true, &mut seen);
    assert_eq!(format!("{:?}", t), "Cap(\"Model\")");
    assert!(c.diags.is_empty());
    let sigs = weftc::check::builtin_sigs();
    let m = sigs.iter().find(|(n, _)| n == "model").expect("model builtin");
    assert_eq!(format!("{:?}", m.1.params), "[Cap(\"Io\")]");
    assert_eq!(format!("{:?}", m.1.ret), "Cap(\"Model\")");
    let src = "def ask(io: Io) -> Int = 0\ndef use_model(m: Model) -> Int = 1\ndef main(io: Io) -> Int = use_model(model(io))\n";
    assert!(diag_rules(src).is_empty(), "{:?}", diag_rules(src));
}

#[test]
fn alias_referring_to_itself_is_refused() {
    let src = format!("type A = List[A]{}", MAIN);
    let rules: Vec<String> = diag_rules(&src).into_iter().map(|(r, _)| r).collect();
    assert!(rules.contains(&"W11".to_string()), "{:?}", rules);
}

#[test]
fn unification_decides_at_the_outermost_form() {
    let prog = weftc::ast::Program { items: Vec::new() };
    let mut c = empty_checker(&prog);
    c.vars.push(None);
    assert!(c.unify_raw(&Ty::Int, &Ty::Int));
    assert!(!c.unify_raw(&Ty::Int, &Ty::Bool));
    // occurs check
    assert!(!c.unify_raw(&Ty::Var(0), &Ty::List(Box::new(Ty::Var(0)))));
    assert!(c.vars[0].is_none());
    // binding
    assert!(c.unify_raw(&Ty::Var(0), &Ty::Text));
    assert_eq!(format!("{:?}", c.vars[0]), "Some(Text)");
    assert!(!c.unify_raw(&Ty::Var(0), &Ty::Int));
    // records unify whatever their field order; sizes must match
    let r1 = Ty::Rec(vec![("a".to_string(), Ty::Int), ("b".to_string(), Ty::Text)]);
    let r2 = Ty::Rec(vec![("b".to_string(), Ty::Text), ("a".to_string(), Ty::Int)]);
    let r3 = Ty::Rec(vec![("a".to_string(), Ty::Int)]);
    assert!(c.unify_raw(&r1, &r2));
    assert!(!c.unify_raw(&r1, &r3));
    // a mismatch through `unify` adds one diagnostic and gives the poison type
    let sp = weftc::diag::Span { start: 0, end: 1 };
    let t = c.unify(&Ty::Int, &Ty::Bool, sp, "W18", "");
    assert_eq!(format!("{:?}", t), "Error");
    assert_eq!(c.diags.len(), 1);
    assert_eq!(c.diags[0].rule, "W18");
}

#[test]
fn positions_never_move_back_and_stop_at_the_end() {
    let src = "ab\ncd";
    let mut prev = (1, 1);
    for off in 0..10 {
        let p = line_col(src, off);
        assert!(p >= prev, "{:?} then {:?}", prev, p);
        prev = p;
    }
    assert_eq!(line_col(src, 5), (2, 3));
    assert_eq!(line_col(src, 9), (2, 3));
}

#[test]
fn propagate_outside_a_result_def_and_constructor_arity() {
    let src = format!("def k: Int = 1\ndef f(x: Int) -> Int = match Some(x) {{ Some(y) => y, None => 0 }}\ndef g(r: Result[Int, Text]) -> Int = r?{}", MAIN);
    let rules: Vec<String> = diag_rules(&src).into_iter().map(|(r, _)| r).collect();
    assert!(rules.contains(&"W26".to_string()), "{:?}", rules);
    let src = format!("def f(x: Int) -> Option[Int] = Some(x, x){}", MAIN);
    let rules: Vec<String> = diag_rules(&src).into_iter().map(|(r, _)| r).collect();
    assert!(rules.contains(&"W9".to_string()), "{:?}", rules);
    let src = format!("def f(x: Int) -> Int = match x {{ Nope(y) => y, _ => 0 }}{}", MAIN);
    let rules: Vec<String> = diag_rules(&src).into_iter().map(|(r, _)| r).collect();
    assert!(rules.contains(&"W12".to_string()), "{:?}", rules);
}

#[test]
fn lambda_capturing_a_capability_is_refused() {
    let src = "def run(io: Io) -> Int = { let f = (x: Int) => print(io, \"hi\"); 0 }\ndef main(io: Io) -> Int = run(io)\n";
    let rules: Vec<String> = diag_rules(src).into_iter().map(|(r, _)| r).collect();
    assert!(rules.contains(&"W33".to_string()), "{:?}", rules);
}

#[test]
fn entry_point_must_have_the_required_signature() {
    for src in [
        "def main: Int = 0\n",
        "def main[T](io: Io) -> Int = 0\n",
        "def main(x: Text) -> Int = 0\n",
        "def main(io: Io) -> Text = \"\"\n",
    ] {
        let rules: Vec<String> = diag_rules(src).into_iter().map(|(r, _)| r).collect();
        assert!(rules.contains(&"W8".to_string()), "{}: {:?}", src, rules);
    }
    assert!(diag_rules("def main(io: Io) -> Int = 0\n").is_empty());
}

#[test]
fn one_w7_per_repeated_name_and_at_most_one_w8() {
    let src = format!("type A = Int\ntype A = Text\ndef f(x: Int) -> Int = x\ndef f(x: Int) -> Int = x\ndef g: Int = 1{}", MAIN);
    let rules: Vec<String> = diag_rules(&src).into_iter().map(|(r, _)| r).collect();
    assert_eq!(rules.iter().filter(|r| *r == "W7").count(), 2, "{:?}", rules);
    assert_eq!(rules.iter().filter(|r| *r == "W8").count(), 0, "{:?}", rules);
    let rules: Vec<String> = diag_rules("def main(x: Text) -> Text = x\n").into_iter().map(|(r, _)| r).collect();
    assert_eq!(rules.iter().filter(|r| *r == "W8").count(), 1, "{:?}", rules);
}

#[test]
fn test_bodies_are_checked_against_bool() {
    let src = "test \"t\" = 1\ndef main(io: Io) -> Int = 0\n";
    let prog = match parse_source(src) {
        Ok(p) => p,
        Err(d) => panic!("parse failed: {}", d.message),
    };
    let r = check_program(&prog);
    assert_eq!(r.diags.len(), 1);
    assert_eq!(r.diags[0].rule, "W18");
    assert_eq!(r.diags[0].span.start, 11);
    let src = "test \"t\" = if 3 then true else false\ndef main(io: Io) -> Int = 0\n";
    let prog = match parse_source(src) {
        Ok(p) => p,
        Err(d) => panic!("parse failed: {}", d.message),
    };
    let r = check_program(&prog);
    assert_eq!(r.diags.len(), 1);
    assert_eq!(r.diags[0].rule, "W18");
    assert_eq!(r.diags[0].span.start, 14);
    let src = "test \"t\" = ?todo\ndef main(io: Io) -> Int = 0\n";
    let prog = match parse_source(src) {
        Ok(p) => p,
        Err(d) => panic!("parse failed: {}", d.message),
    };
    let r = check_program(&prog);
    assert!(r.diags.is_empty());
    assert_eq!(r.holes.len(), 1);
    assert_eq!(r.holes[0].name, "todo");
    assert_eq!(r.holes[0].span.start, 11);
    assert_eq!(r.holes[0].ty, "Bool");
}

#[test]
fn if_branches_of_different_literal_types_are_reported() {
    let src = "def f(b: Bool) -> Int = { let x = if b then 1 else \"one\"; 0 }\ndef main(io: Io) -> Int = 0\n";
    let prog = match parse_source(src) {
        Ok(p) => p,
        Err(d) => panic!("parse failed: {}", d.message),
    };
    let r = check_program(&prog);
    assert!(r.diags.iter().any(|d| d.rule == "W18" && d.span.start == 51));
}

#[test]
fn propagate_gives_the_ok_type_and_checks_the_err_type() {
    let src = "def f(r: Result[Int, Text]) -> Result[Int, Text] = Ok(r? + 1)\ndef main(io: Io) -> Int = 0\n";
    let prog = match parse_source(src) {
        Ok(p) => p,
        Err(d) => panic!("parse failed: {}", d.message),
    };
    assert!(check_program(&prog).diags.is_empty());
    let src = "def f(r: Result[Int, Text]) -> Result[Int, Int] = Ok(r?)\ndef main(io: Io) -> Int = 0\n";
    let prog = match parse_source(src) {
        Ok(p) => p,
        Err(d) => panic!("parse failed: {}", d.message),
    };
    let diags = check_program(&prog).diags;
    assert_eq!(diags.len(), 1);
    assert_eq!(diags[0].rule, "W26");
    assert_eq!(diags[0].span.start, src.find("r?").unwrap());
    let src = "def f(r: Int) -> Result[Int, Int] = Ok(r?)\ndef main(io: Io) -> Int = 0\n";
    let prog = match parse_source(src) {
        Ok(p) => p,
        Err(d) => panic!("parse failed: {}", d.message),
    };
    let diags = check_program(&prog).diags;
    assert!(diags.iter().any(|d| d.rule == "W26" && d.span.start == src.find("r?").unwrap()));
}

#[test]
fn capabilities_written_inside_other_types_are_refused() {
    for src in [
        "def f(x: List[Io]) -> Int = 0\ndef main(io: Io) -> Int = 0\n",
        "def f(x: Result[Int, Fs]) -> Int = 0\ndef main(io: Io) -> Int = 0\n",
        "def f(x: { h: Clock }) -> Int = 0\ndef main(io: Io) -> Int = 0\n",
        "def f(x: (Rand) -> Int) -> Int = 0\ndef main(io: Io) -> Int = 0\n",
    ] {
        let prog = match parse_source(src) {
            Ok(p) => p,
            Err(d) => panic!("parse failed: {}", d.message),
        };
        let diags = check_program(&prog).diags;
        let at = ["Io]", "Fs]", "Clock", "Rand"].iter().filter_map(|c| src.find(c)).next().unwrap();
        assert!(diags.iter().any(|d| d.rule == "W33" && d.span.start == at), "{}", src);
    }
}
