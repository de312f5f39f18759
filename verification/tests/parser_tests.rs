use weftc::ast::{BinOp, Expr, ExprKind, Item, TypeDecl};
use weftc::diag::Diag;
use weftc::lexer::lex;
use weftc::parser::{parse_source, Parser};

fn expr(src: &str) -> Expr {
    let toks = match lex(src) {
        Ok(t) => t,
        Err(d) => panic!("lex failed: {}", d.message),
    };
    let mut p = Parser::new(toks);
    match p.parse_expr() {
        Ok(e) => {
            assert!(p.at_eof(), "tokens left after {}", src);
            e
        }
        Err(d) => panic!("parse failed: {} {}", d.rule, d.message),
    }
}

fn expr_err(src: &str) -> Diag {
    let toks = match lex(src) {
        Ok(t) => t,
        Err(d) => panic!("lex failed: {}", d.message),
    };
    let mut p = Parser::new(toks);
    match p.parse_expr() {
        Ok(_) => panic!("expected a parse error for {}", src),
        Err(d) => d,
    }
}

fn is_int(e: &Expr, v: i64) -> bool {
    matches!(e.kind, ExprKind::Int(x) if x == v)
}

fn is_var(e: &Expr, n: &str) -> bool {
    matches!(&e.kind, ExprKind::Var(x) if x == n)
}

#[test]
fn multiplication_binds_tighter_than_addition() {
    let e = expr("1 + 2 * 3");
    match &e.kind {
        ExprKind::Bin(BinOp::Add, l, r) => {
            assert!(is_int(l, 1));
            match &r.kind {
                ExprKind::Bin(BinOp::Mul, a, b) => assert!(is_int(a, 2) && is_int(b, 3)),
                _ => panic!("expected a product on the right"),
            }
        }
        _ => panic!("expected a sum"),
    }
    assert_eq!((e.span.start, e.span.end), (0, 9));
}

#[test]
fn and_binds_tighter_than_or_and_chains_go_left() {
    let e = expr("a or b and c");
    match &e.kind {
        ExprKind::Bin(BinOp::Or, l, r) => {
            assert!(is_var(l, "a"));
            assert!(matches!(&r.kind, ExprKind::Bin(BinOp::And, _, _)));
        }
        _ => panic!("expected `or` at the top"),
    }
    let e = expr("1 - 2 - 3");
    match &e.kind {
        ExprKind::Bin(BinOp::Sub, l, r) => {
            assert!(matches!(&l.kind, ExprKind::Bin(BinOp::Sub, _, _)));
            assert!(is_int(r, 3));
        }
        _ => panic!("expected a difference"),
    }
}

#[test]
fn minus_before_a_literal_is_a_negative_literal() {
    assert!(is_int(&expr("-5"), -5));
    assert!(matches!(&expr("-2.5").kind, ExprKind::Float(f) if f == "-2.5"));
    assert!(matches!(&expr("- x").kind, ExprKind::NegOp(i) if is_var(i, "x")));
    assert!(matches!(&expr("not b").kind, ExprKind::NotOp(i) if is_var(i, "b")));
}

#[test]
fn call_on_a_bare_constructor_builds_the_variant() {
    assert!(matches!(&expr("Some(1)").kind, ExprKind::Ctor(n, args) if n == "Some" && args.len() == 1));
    assert!(matches!(&expr("None").kind, ExprKind::Ctor(n, args) if n == "None" && args.is_empty()));
    match &expr("f(1)(2)").kind {
        ExprKind::Call(c, args) => {
            assert_eq!(args.len(), 1);
            assert!(matches!(&c.kind, ExprKind::Call(f, _) if is_var(f, "f")));
        }
        _ => panic!("expected a call"),
    }
    assert!(matches!(&expr("r.f?").kind, ExprKind::Propagate(i) if matches!(&i.kind, ExprKind::Field(_, f) if f == "f")));
}

#[test]
fn braces_are_records_or_blocks() {
    assert!(matches!(&expr("{a: 1, b: 2}").kind, ExprKind::Record { spread: None, fields } if fields.len() == 2));
    assert!(matches!(&expr("{}").kind, ExprKind::Record { spread: None, fields } if fields.is_empty()));
    assert!(matches!(&expr("{..r, a: 1,}").kind, ExprKind::Record { spread: Some(_), fields } if fields.len() == 1));
    match &expr("{ let x = 1; let _ = 2; x }").kind {
        ExprKind::Block { lets, tail } => {
            assert_eq!(lets.len(), 2);
            assert_eq!(lets[1].0, "_");
            assert!(is_var(tail, "x"));
        }
        _ => panic!("expected a block"),
    }
    assert!(matches!(&expr("Acc{..a, n: 1}").kind, ExprKind::NamedRec { name, spread: Some(_), fields } if name == "Acc" && fields.len() == 1));
}

#[test]
fn parenthesis_before_fat_arrow_starts_a_lambda() {
    match &expr("(x, _: Int) => x").kind {
        ExprKind::Lambda { params, body } => {
            assert_eq!(params.len(), 2);
            assert!(params[0].1.is_none() && params[1].1.is_some());
            assert_eq!(params[1].0, "_");
            assert!(is_var(body, "x"));
        }
        _ => panic!("expected a lambda"),
    }
    assert!(is_var(&expr("(x)"), "x"));
    assert!(matches!(&expr("[1, 2,]").kind, ExprKind::List(es) if es.len() == 2));
}

#[test]
fn match_scrutinee_does_not_take_a_brace() {
    match &expr("match Red { Red => 1, _ => 2 }").kind {
        ExprKind::Match { scrutinee, arms } => {
            assert!(matches!(&scrutinee.kind, ExprKind::Ctor(n, _) if n == "Red"));
            assert_eq!(arms.len(), 2);
        }
        _ => panic!("expected a match"),
    }
}

#[test]
fn expression_errors_name_rule_and_token() {
    let d = expr_err("match x {}");
    assert_eq!(d.rule, "W24");
    assert_eq!(d.message, "match must have at least one arm");
    assert_eq!((d.span.start, d.span.end), (0, 5));
    let d = expr_err("if a then b");
    assert_eq!(d.rule, "W22");
    assert_eq!(d.message, "expected `else` (the else branch is required), found end of file");
    let d = expr_err("f(1 2)");
    assert_eq!(d.rule, "W19");
    assert_eq!(d.message, "expected `)`, found `2`");
    let d = expr_err("x.1");
    assert_eq!(d.rule, "W11");
}

#[test]
fn top_level_forms_parse_exactly() {
    let p = match parse_source("type Pair = {a: Int, b: Int} where a < b\ndef k[T]: Int = 1") {
        Ok(_) => panic!("constants cannot have type parameters"),
        Err(d) => d,
    };
    assert_eq!(p.rule, "W16");
    assert_eq!(p.message, "constants cannot have type parameters");
    let prog = match parse_source("type Pair = {a: Int, b: Int} where a < b\ntype T = A | B(Int, Text)\ndef k: Int = 1") {
        Ok(p) => p,
        Err(d) => panic!("{}", d.message),
    };
    assert_eq!(prog.items.len(), 3);
    assert!(matches!(&prog.items[0], Item::TypeDef(t) if matches!(&t.decl, TypeDecl::Nominal { fields, .. } if fields.len() == 2)));
    assert!(matches!(&prog.items[1], Item::TypeDef(t) if matches!(&t.decl, TypeDecl::Variants(vs) if vs.len() == 2 && vs[1].payload.len() == 2)));
    assert!(matches!(&prog.items[2], Item::Def(d) if d.params.is_none() && d.name == "k"));
    let d = match parse_source("test nope = 1") {
        Ok(_) => panic!("expected an error"),
        Err(d) => d,
    };
    assert_eq!(d.rule, "W34");
    assert!(d.message.starts_with("expected a test name in quotes, found "));
    let d = match parse_source("1") {
        Ok(_) => panic!("expected an error"),
        Err(d) => d,
    };
    assert_eq!(d.rule, "W7");
}
