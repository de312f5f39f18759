use weftc::ast::BinOp;
use weftc::eval::{int_arith, int_range, list_position, IntHalt};
use weftc::ast::{Item, Program, TypeExpr};
use weftc::check::check_program;
use weftc::diag::{Diag, Span};
use weftc::eval::{is_builtin, literal_only, test_failure_diag, Prng, TestOutcome};
use weftc::index::{build_index, ctx, def_signature, graph, skeleton, type_text, typedef_text};
use weftc::lexer::lex;
use weftc::lines::line_col;
use weftc::names::sort_strings;
use weftc::parser::{parse_source, Parser};
use weftc::report::{
    check_report, parse_report, render, repair_payload, slash_path, source_excerpt, spec_rule_excerpt, test_fail_report,
    test_summary,
};
use weftc::splice::{can_splice, locate, splice, splice_conflicts, Patch};

const P1: &str = "# Doubles a number.
def double(x: Int) -> Int = x * 2

type Shape = Circle(Int) | Square(Int)

def area(s: Shape) -> Int = match s {
  Circle(r) => r * r * 3,
  Square(w) => double(w),
}

def main(io: Io) -> Int = area(Circle(2))

test \"double works\" = double(2) == 4
";

fn parse(src: &str) -> Program {
    match parse_source(src) {
        Ok(p) => p,
        Err(d) => panic!("parse failed: {} {}", d.rule, d.message),
    }
}

// ---------- spans and positions ----------

#[test]
fn span_new_keeps_bounds() {
    let s = Span::new(3, 9);
    assert_eq!((s.start, s.end), (3, 9));
}

#[test]
fn span_merge_covers_both() {
    let a = Span::new(4, 10);
    let b = Span::new(2, 6);
    let m = a.merge(b);
    assert_eq!((m.start, m.end), (2, 10));
    let m2 = b.merge(a);
    assert_eq!((m2.start, m2.end), (2, 10));
    let same = a.merge(a);
    assert_eq!((same.start, same.end), (4, 10));
}

#[test]
fn line_col_counts_lines_and_columns() {
    let src = "ab\ncd\nef";
    assert_eq!(line_col(src, 0), (1, 1));
    assert_eq!(line_col(src, 4), (2, 2));
    assert_eq!(line_col(src, 6), (3, 1));
    assert_eq!(line_col(src, 100), (3, 3));
}

#[test]
fn line_col_counts_characters_not_bytes() {
    let src = "é=1";
    assert_eq!(line_col(src, 2), (1, 2));
}

// ---------- diagnostics ----------

#[test]
fn diag_json_has_span_and_optional_fields() {
    let d = Diag::new("W3", "unknown name `x`".to_string(), Span::new(4, 5)).hint("define it".to_string());
    assert_eq!(
        d.to_json("abc\nx"),
        "{\"rule\":\"W3\",\"message\":\"unknown name `x`\",\"span\":{\"line\":2,\"col\":1,\"endLine\":2,\"endCol\":2},\"hint\":\"define it\"}"
    );
}

#[test]
fn diag_json_escapes_text() {
    let d = Diag::new("W1", "a \"q\"\n\u{1}".to_string(), Span::new(0, 0));
    assert_eq!(
        d.to_json(""),
        "{\"rule\":\"W1\",\"message\":\"a \\\"q\\\"\\n\\u0001\",\"span\":{\"line\":1,\"col\":1,\"endLine\":1,\"endCol\":1}}"
    );
}

#[test]
fn diag_human_shows_source_line() {
    let d = Diag::new("W22", "bad".to_string(), Span::new(4, 5))
        .expected("Bool".to_string())
        .actual("Int".to_string());
    assert_eq!(
        d.render_human("abc\nxyz", "f.weft"),
        "error[W22]: bad\n  --> f.weft:2:1\n   | xyz\n   expected: Bool\n   actual:   Int"
    );
}

#[test]
fn render_json_and_human() {
    let d = Diag::new("W8", "m".to_string(), Span::new(0, 0));
    assert_eq!(
        render(&d, "", "dir\\f.weft", true),
        "{\"file\":\"dir/f.weft\",\"ok\":false,\"error\":{\"rule\":\"W8\",\"message\":\"m\",\"span\":{\"line\":1,\"col\":1,\"endLine\":1,\"endCol\":1}}}"
    );
    assert_eq!(render(&d, "", "f.weft", false), "error[W8]: m\n  --> f.weft:1:1");
}

// ---------- lexing and parsing ----------

#[test]
fn lex_ends_with_eof_at_text_end() {
    let toks = match lex("def x: Int = 1") {
        Ok(t) => t,
        Err(_) => panic!("lex failed"),
    };
    let last = toks.last().unwrap();
    assert_eq!((last.span.start, last.span.end), (14, 14));
    assert_eq!(toks.len(), 7);
    for w in toks.windows(2) {
        assert!(w[0].span.end <= w[1].span.start);
    }
}

#[test]
fn lex_rejects_unterminated_text() {
    match lex("def x: Text = \"abc") {
        Ok(_) => panic!("expected a lexing error"),
        Err(d) => assert!(d.rule.starts_with('W')),
    }
}

#[test]
fn parse_sample_program() {
    let prog = parse(P1);
    assert_eq!(prog.items.len(), 5);
    assert!(matches!(&prog.items[0], Item::Def(d) if d.name == "double"));
    assert!(matches!(&prog.items[1], Item::TypeDef(t) if t.name == "Shape"));
    assert!(matches!(&prog.items[4], Item::Test(t) if t.name == "double works"));
}

#[test]
fn parse_expr_then_eof() {
    let toks = match lex("1 + 2") {
        Ok(t) => t,
        Err(_) => panic!("lex failed"),
    };
    let mut p = Parser::new(toks);
    assert!(p.parse_expr().is_ok());
    assert!(p.at_eof());
}

#[test]
fn parse_error_is_a_diagnostic() {
    match parse_source("def = 1") {
        Ok(_) => panic!("expected a parse error"),
        Err(d) => assert!(d.rule.starts_with('W')),
    }
}

// ---------- checking ----------

#[test]
fn check_sample_program_is_clean() {
    let prog = parse(P1);
    let r = check_program(&prog);
    assert!(r.diags.is_empty(), "unexpected diagnostics: {:?}", r.diags.iter().map(|d| d.message.clone()).collect::<Vec<_>>());
    assert_eq!(r.defs, 3);
    assert_eq!(r.tests, 1);
    assert!(r.holes.is_empty());
}

#[test]
fn check_reports_missing_entry_point() {
    let prog = parse("def f(x: Int) -> Int = x\n");
    let r = check_program(&prog);
    assert!(r.diags.iter().any(|d| d.rule == "W8" && d.message == "program has no entry point"));
}

#[test]
fn check_reports_type_mismatch() {
    let prog = parse("def main(io: Io) -> Int = \"no\"\n");
    let r = check_program(&prog);
    assert!(!r.diags.is_empty());
}

#[test]
fn check_reports_holes() {
    let prog = parse("def main(io: Io) -> Int = ?todo\n");
    let r = check_program(&prog);
    assert!(r.diags.is_empty());
    assert_eq!(r.holes.len(), 1);
    assert_eq!(r.holes[0].name, "todo");
    assert_eq!(r.holes[0].ty, "Int");
}

// ---------- the index ----------

#[test]
fn signatures_and_type_texts() {
    let prog = parse(P1);
    match &prog.items[0] {
        Item::Def(d) => assert_eq!(def_signature(d), "def double(x: Int) -> Int"),
        _ => panic!(),
    }
    match &prog.items[1] {
        Item::TypeDef(t) => assert_eq!(typedef_text(t), "type Shape = Circle(Int) | Square(Int)"),
        _ => panic!(),
    }
    let te = TypeExpr::Fn(
        vec![TypeExpr::Name("List".to_string(), vec![TypeExpr::Name("Int".to_string(), vec![], Span::new(0, 0))], Span::new(0, 0))],
        Box::new(TypeExpr::Record(vec![("a".to_string(), TypeExpr::Name("Text".to_string(), vec![], Span::new(0, 0)))], Span::new(0, 0))),
        Span::new(0, 0),
    );
    assert_eq!(type_text(&te), "(List[Int]) -> {a: Text}");
}

#[test]
fn graph_lists_sorted_dependencies() {
    let prog = parse(P1);
    assert_eq!(
        graph(&prog),
        "# dependency graph (name -> references)\n\narea -> Shape, double\ndouble ->\nmain -> Shape, area\n"
    );
}

#[test]
fn index_has_no_self_edges() {
    let prog = parse("def f(n: Int) -> Int = if n == 0 then 0 else f(n - 1)\ndef main(io: Io) -> Int = f(3)\n");
    let idx = build_index(&prog);
    for (name, deps) in &idx.deps {
        assert!(!deps.contains(name));
    }
    assert_eq!(idx.known, vec!["f".to_string(), "main".to_string()]);
}

#[test]
fn index_maps_constructors_to_types() {
    let prog = parse(P1);
    let idx = build_index(&prog);
    assert_eq!(
        idx.ctor_owner,
        vec![("Circle".to_string(), "Shape".to_string()), ("Square".to_string(), "Shape".to_string())]
    );
}

#[test]
fn skeleton_shows_lines_signatures_and_docs() {
    let prog = parse(P1);
    assert_eq!(
        skeleton(&prog, P1),
        "# skeleton: 13 lines, 3 defs, 1 tests\n\n\
L2    def double(x: Int) -> Int   # Doubles a number.\n\
L4    type Shape = Circle(Int) | Square(Int)\n\
L6    def area(s: Shape) -> Int\n\
L11   def main(io: Io) -> Int\n\
L13   test \"double works\"\n"
    );
}

#[test]
fn ctx_rejects_unknown_target() {
    let prog = parse(P1);
    match ctx(&prog, P1, &["nope".to_string()]) {
        Ok(_) => panic!("expected an error"),
        Err(e) => assert_eq!(e, "unknown definition `nope`"),
    }
}

#[test]
fn ctx_slices_target_callers_and_tests() {
    let prog = parse(P1);
    let text = match ctx(&prog, P1, &["double".to_string()]) {
        Ok(t) => t,
        Err(e) => panic!("{}", e),
    };
    assert!(text.starts_with("# Context slice for: double\n"));
    assert!(text.contains("## Program map (all signatures)\n\n# skeleton: 13 lines"));
    assert!(text.contains("```weft\n# Doubles a number.\ndef double(x: Int) -> Int = x * 2\n\n```\n"));
    assert!(text.contains("(signatures only \u{2014} do not break these)\n\ndef area(s: Shape) -> Int\n"));
    assert!(text.contains("(must keep passing)\n\n```weft\ntest \"double works\" = double(2) == 4\n\n```\n"));
    let body_end = text.find("\n## Stats\n").unwrap();
    let body_lines = text[..body_end].lines().count();
    let stats = format!(
        "\n## Stats\nfull program: 13 lines \u{b7} full bodies emitted: 5 lines \u{b7} whole context: {} lines ({}% of a full-file read)\n",
        body_lines,
        body_lines * 100 / 13
    );
    assert!(text.ends_with(&stats), "stats: {}", &text[body_end..]);
}

// ---------- splicing ----------

fn patch(label: &str, src: &str) -> Patch {
    Patch { label: label.to_string(), src: src.to_string(), prog: parse(src) }
}

#[test]
fn locate_extends_over_comments() {
    let prog = parse(P1);
    let locs = locate(&prog, P1);
    assert_eq!(locs.len(), 5);
    assert_eq!(locs[0].key, "def double");
    assert_eq!((locs[0].start_line, locs[0].end_line), (1, 2));
    assert_eq!(locs[0].sig.as_deref(), Some("def double(x: Int) -> Int"));
    assert_eq!(locs[2].key, "def area");
    assert_eq!((locs[2].start_line, locs[2].end_line), (6, 9));
    assert_eq!(locs[4].key, "test double works");
    assert!(locs[4].sig.is_none());
}

#[test]
fn splice_replaces_by_name() {
    let base = parse(P1);
    let patches = vec![patch("p", "def double(x: Int) -> Int = x + x\n")];
    assert!(can_splice(P1, &base, &patches));
    let m = match splice(P1, &base, &patches) {
        Ok(m) => m,
        Err(e) => panic!("{}", e),
    };
    let expected = P1.replace("# Doubles a number.\ndef double(x: Int) -> Int = x * 2", "def double(x: Int) -> Int = x + x");
    assert_eq!(m.text, expected);
    assert_eq!(m.replaced, vec!["def double".to_string()]);
    assert!(m.added.is_empty());
    assert!(m.signature_changes.is_empty());
}

#[test]
fn splice_appends_new_definitions() {
    let base = parse(P1);
    let patches = vec![patch("p", "def triple(x: Int) -> Int = x * 3\n")];
    let m = match splice(P1, &base, &patches) {
        Ok(m) => m,
        Err(e) => panic!("{}", e),
    };
    let expected = format!(
        "{}\n\n# ------------------------------------------------------------\n# Spliced in by `weftc splice`\n# ------------------------------------------------------------\n\ndef triple(x: Int) -> Int = x * 3\n",
        P1.trim_end_matches('\n')
    );
    assert_eq!(m.text, expected);
    assert_eq!(m.added, vec!["def triple".to_string()]);
    assert!(m.replaced.is_empty());
}

#[test]
fn splice_reports_signature_changes() {
    let base = parse(P1);
    let patches = vec![patch("p", "def double(x: Int) -> Text = text_of_int(x)\n")];
    let m = match splice(P1, &base, &patches) {
        Ok(m) => m,
        Err(e) => panic!("{}", e),
    };
    assert_eq!(
        m.signature_changes,
        vec!["  def double (p)\n      was: def double(x: Int) -> Int\n      now: def double(x: Int) -> Text".to_string()]
    );
}

#[test]
fn splice_detects_conflicts_by_name() {
    let base = parse(P1);
    let patches = vec![
        patch("a", "def double(x: Int) -> Int = x + x\n"),
        patch("b", "def double(x: Int) -> Int = 2 * x\n"),
    ];
    assert_eq!(splice_conflicts(&patches), vec!["  def double \u{2014} touched by a and b".to_string()]);
    match splice(P1, &base, &patches) {
        Ok(_) => panic!("expected a conflict"),
        Err(e) => assert_eq!(e, "conflict: 1 definition(s) edited by more than one patch\n  def double \u{2014} touched by a and b"),
    }
}

#[test]
fn splice_allows_disjoint_patches() {
    let base = parse(P1);
    let patches = vec![
        patch("a", "def double(x: Int) -> Int = x + x\n"),
        patch("b", "def area(s: Shape) -> Int = 0\n"),
    ];
    assert!(splice_conflicts(&patches).is_empty());
    let m = match splice(P1, &base, &patches) {
        Ok(m) => m,
        Err(e) => panic!("{}", e),
    };
    assert_eq!(m.replaced, vec!["def area".to_string(), "def double".to_string()]);
    assert!(m.text.contains("def area(s: Shape) -> Int = 0\n\ndef main"));
}

// ---------- reports ----------

const SPEC_TEXT: &str = "# Title
- **[W1]** First rule.
  continued.

- **[W2]** Second.
## Next
";

#[test]
fn rule_excerpt_runs_to_next_rule() {
    assert_eq!(spec_rule_excerpt(SPEC_TEXT, "W1"), Some("- **[W1]** First rule.\n  continued.".to_string()));
    assert_eq!(spec_rule_excerpt(SPEC_TEXT, "W2"), Some("- **[W2]** Second.".to_string()));
    assert_eq!(spec_rule_excerpt(SPEC_TEXT, "W9"), None);
}

#[test]
fn source_excerpt_marks_the_error_line() {
    let src = "a\nb\nc\nd\ne\nf\ng\nh\ni\nj\n";
    let off = src.find('f').unwrap();
    assert_eq!(
        source_excerpt(src, Span::new(off, off + 1)),
        "     2 | b\n     3 | c\n     4 | d\n     5 | e\n>    6 | f\n     7 | g\n     8 | h\n     9 | i\n"
    );
    assert_eq!(source_excerpt("x", Span::new(0, 1)), ">    1 | x\n");
}

#[test]
fn repair_payload_cites_rule_and_excerpt() {
    let d = Diag::new("W8", "program has no entry point".to_string(), Span::new(0, 0));
    let text = repair_payload("p.weft", "x", &d, &None, "RULES.txt");
    assert_eq!(
        text,
        "# Weft repair context for p.weft\n\n## Failure\n\n```json\n{\"rule\":\"W8\",\"message\":\"program has no entry point\",\"span\":{\"line\":1,\"col\":1,\"endLine\":1,\"endCol\":1}}\n```\n\n## Rule [W8]\n\n(RULES.txt not found near the program file)\n\n## Source excerpt\n\n```weft\n>    1 | x\n```\n\n## Instruction\n\nFix the program so this failure disappears, keeping all other behavior. Reply with the complete corrected single-file program only.\n"
    );
    let with_rule = repair_payload("p.weft", "x", &d, &Some("- **[W8]** entry".to_string()), "RULES.txt");
    assert!(with_rule.contains("## The rule you broke \u{2014} [W8]\n\n- **[W8]** entry\n\n"));
}

#[test]
fn one_line_reports() {
    assert_eq!(parse_report("a\\b.weft", 3, true), "{\"file\":\"a/b.weft\",\"ok\":true,\"items\":3}");
    assert_eq!(parse_report("b.weft", 3, false), "b.weft: ok (3 top-level items)");
    assert_eq!(test_summary("t.weft", 4, 3, false), "t.weft: 3/4 tests passed");
    assert_eq!(test_summary("t.weft", 4, 3, true), "{\"file\":\"t.weft\",\"tests\":4,\"passed\":3}");
    assert_eq!(slash_path("a\\b\\c"), "a/b/c");
}

#[test]
fn check_report_counts_holes() {
    let prog = parse("def main(io: Io) -> Int = ?todo\n");
    let r = check_program(&prog);
    assert_eq!(check_report("m.weft", &r, false), "m.weft: ok (1 defs, 0 tests, 1 holes)");
    assert_eq!(check_report("m.weft", &r, true), "{\"file\":\"m.weft\",\"ok\":true,\"defs\":1,\"tests\":0,\"holes\":1}");
}

#[test]
fn failed_test_reports() {
    let o = TestOutcome {
        name: "t".to_string(),
        passed: false,
        detail: Some("a\\\"b".to_string()),
        cases: 1,
        span: Span::new(0, 3),
        property: true,
    };
    assert_eq!(test_fail_report("f.weft", &o, false), "  FAIL \"t\": a\\\"b");
    assert_eq!(
        test_fail_report("f.weft", &o, true),
        "{\"file\":\"f.weft\",\"test\":\"t\",\"passed\":false,\"detail\":\"a\\\\\\\"b\"}"
    );
    let d = test_failure_diag(&o);
    assert_eq!(d.rule, "W35");
    assert_eq!(d.message, "test \"t\" failed: a\\\"b");
    let unit = TestOutcome { property: false, detail: None, ..o };
    let d2 = test_failure_diag(&unit);
    assert_eq!(d2.rule, "W34");
    assert_eq!(d2.message, "test \"t\" failed: ");
}

// ---------- the evaluator's integer parts ----------

#[test]
fn prng_is_splitmix64() {
    let mut p = Prng::new();
    assert_eq!(p.next_u64(), 7960286522194355700);
    assert_eq!(p.state, 0x3c6e_f372_fe94_f82a);
    assert_eq!(p.next_range(-100, 100), 21);
    assert_eq!(p.state, 0xdaa6_6d2c_7ddf_743f);
}

#[test]
fn builtin_names() {
    assert!(is_builtin("map"));
    assert!(is_builtin("now_ms"));
    assert!(!is_builtin("mapp"));
    assert!(!is_builtin(""));
}

#[test]
fn literal_replies_only() {
    let lit = |s: &str| {
        let toks = match lex(s) {
            Ok(t) => t,
            Err(_) => panic!("lex failed"),
        };
        let mut p = Parser::new(toks);
        match p.parse_expr() {
            Ok(e) => literal_only(&e),
            Err(_) => panic!("parse failed"),
        }
    };
    assert!(lit("[1, -2, Some(\"x\")]"));
    assert!(lit("{a: 1, b: Ok(true)}"));
    assert!(!lit("f(1)"));
    assert!(!lit("1 + 2"));
    assert!(!lit("x"));
}

#[test]
fn strings_sort_with_repeats() {
    let v = vec!["b".to_string(), "a".to_string(), "b".to_string(), "B".to_string()];
    assert_eq!(sort_strings(v), vec!["B".to_string(), "a".to_string(), "b".to_string(), "b".to_string()]);
}


#[test]
fn splicing_no_patches_gives_the_text_back() {
    let base = parse(P1);
    let patches: Vec<Patch> = Vec::new();
    let m = match splice(P1, &base, &patches) {
        Ok(m) => m,
        Err(e) => panic!("unexpected conflict: {}", e),
    };
    assert_eq!(m.text, P1);
    assert!(m.replaced.is_empty() && m.added.is_empty());
}

#[test]
fn int_arithmetic_halts_on_zero_divisors_and_overflow() {
    assert_eq!(int_arith(BinOp::Add, 2, 3), Ok(5));
    assert_eq!(int_arith(BinOp::Sub, 2, 3), Ok(-1));
    assert_eq!(int_arith(BinOp::Mul, -4, 3), Ok(-12));
    assert_eq!(int_arith(BinOp::Div, -7, 2), Ok(-3));
    assert_eq!(int_arith(BinOp::Rem, -7, 2), Ok(-1));
    assert_eq!(int_arith(BinOp::Div, 7, 0), Err(IntHalt::DivisionByZero));
    assert_eq!(int_arith(BinOp::Rem, 7, 0), Err(IntHalt::ModuloByZero));
    assert_eq!(int_arith(BinOp::Add, i64::MAX, 1), Err(IntHalt::Overflow));
    assert_eq!(int_arith(BinOp::Div, i64::MIN, -1), Err(IntHalt::Overflow));
    assert_eq!(int_arith(BinOp::Rem, i64::MIN, -1), Err(IntHalt::Overflow));
}

#[test]
fn ranges_and_list_positions() {
    assert_eq!(int_range(2, 5), vec![2, 3, 4]);
    assert!(int_range(5, 2).is_empty());
    assert_eq!(int_range(-1, 1), vec![-1, 0]);
    assert_eq!(list_position(3, 2), Some(2));
    assert_eq!(list_position(3, 3), None);
    assert_eq!(list_position(3, -1), None);
}

#[test]
fn a_plain_type_is_shown_as_written() {
    let src = "def f(x: Int) -> Result[List[Int], (Int, Text) -> Option[Bool]] = ?h\ndef main(io: Io) -> Int = 0\n";
    let prog = match parse_source(src) {
        Ok(p) => p,
        Err(d) => panic!("parse failed: {}", d.message),
    };
    let written = match &prog.items[0] {
        Item::Def(d) => type_text(&d.ty),
        _ => panic!("expected a def"),
    };
    let r = check_program(&prog);
    assert_eq!(r.holes.len(), 1);
    assert_eq!(r.holes[0].ty, written);
    assert_eq!(written, "Result[List[Int], (Int, Text) -> Option[Bool]]");
}
