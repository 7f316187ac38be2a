use lib::unification::term::{Term, full_term, clone_term};
use lib::unification::parse::{start_parse, parse_constructor, ParseError};
use lib::unification::system::{
    EqTerm, add_vars, add_terms, append_F, extract_vars, complete_match, unique, already_present, merge_equals, clean_F,
    remove_from_EqTerm, clear_empty, sub_unify, merge_equal, unify_system, fill_eq,
};
use lib::unification::separate::{separateCF, UnifyFailure};
use lib::unification::solve::{getCF, MartMont, unify_terms, format_T};
use lib::text::decimal_string;

const FUEL: u64 = 1000;

fn v(name: &str) -> Term {
    Term { value: name.to_string(), var: 1, children: Vec::new() }
}

fn c(name: &str, children: Vec<Term>) -> Term {
    Term { value: name.to_string(), var: 0, children }
}

fn parse(s: &str) -> Term {
    start_parse(s.to_string()).unwrap()
}

fn names(ts: &Vec<Term>) -> Vec<String> {
    ts.iter().map(|t| t.value.clone()).collect()
}

fn texts(ts: &Vec<Term>) -> Vec<String> {
    ts.iter().map(|t| full_term(clone_term(t))).collect()
}

fn same(a: &Term, b: &Term) -> bool {
    a.value == b.value
        && a.var == b.var
        && a.children.len() == b.children.len()
        && a.children.iter().zip(b.children.iter()).all(|(x, y)| same(x, y))
}

fn eq(equal: Vec<Term>, terms: Vec<Term>) -> EqTerm {
    EqTerm { instances: 0, equal, terms }
}

#[test]
fn full_term_writes_terms() {
    assert_eq!(full_term(c("f", vec![v("x"), c("g", vec![v("y")]), c("a", Vec::new())])), "f(x, g(y), a())");
    assert_eq!(full_term(v("x")), "x");
}

#[test]
fn parse_terms() {
    assert_eq!(full_term(parse("f(x, g(y))")), "f(x, g(y))");
    assert_eq!(full_term(parse("f(x, g(y))\n")), "f(x, g(y))");
    assert_eq!(full_term(parse(" f( x1 ,  a() )")), "f(x1, a())");
    assert_eq!(start_parse("f (x)".to_string()).err(), Some(ParseError::ForbiddenSymbol));
    assert_eq!(parse("x").var, 1);
    assert_eq!(full_term(parse("f()")), "f()");
}

#[test]
fn written_terms_read_back() {
    let samples = vec![
        v("x"),
        c("f", Vec::new()),
        c("f", vec![v("x1"), c("g", vec![v("y"), c("h", Vec::new())]), v("z")]),
        c("k", vec![c("k", vec![c("k", vec![v("a")])])]),
        c("функция", vec![v("x9"), v("Ярус")]),
    ];
    for t in samples {
        let text = full_term(clone_term(&t));
        let back = parse(&text);
        assert!(same(&back, &t), "{} did not read back", text);
    }
}

#[test]
fn term_parse_errors() {
    let e = |s: &str| start_parse(s.to_string()).err();
    assert_eq!(e("f(x"), Some(ParseError::Unbalanced));
    assert_eq!(e("f(x)y"), None);
    assert_eq!(e("f(,x)"), Some(ParseError::EmptyTerm));
    assert_eq!(e("f(1x)"), Some(ParseError::DigitStart));
    assert_eq!(e("1f(x)"), Some(ParseError::DigitStart));
    assert_eq!(e("f(x!)"), Some(ParseError::ForbiddenSymbol));
    assert_eq!(e("x\n"), Some(ParseError::ForbiddenSymbol));
    assert_eq!(e("f(())"), Some(ParseError::NamelessConstructor));
    assert_eq!(e("f(x,)"), Some(ParseError::EmptyExpression));
    assert_eq!(e(""), Some(ParseError::OutOfRange));
    assert_eq!(e("ab  "), Some(ParseError::OutOfRange));
    assert_eq!(parse_constructor(")".to_string(), 0).err(), Some(ParseError::OutOfRange));
}

#[test]
fn add_vars_and_terms_skip_known() {
    let out = add_vars(vec![v("x")], vec![v("y"), v("x"), v("y")]);
    assert_eq!(names(&out), vec!["x", "y"]);
    let out = add_terms(vec![c("a", Vec::new())], vec![c("a", Vec::new()), c("b", Vec::new())]);
    assert_eq!(texts(&out), vec!["a()", "b()"]);
}

#[test]
fn append_f_merges_on_shared_variable() {
    let f = vec![eq(vec![v("x")], vec![c("a", Vec::new())])];
    let f = append_F(f, eq(vec![v("y"), v("x")], vec![c("b", Vec::new())]));
    assert_eq!(f.len(), 1);
    assert_eq!(names(&f[0].equal), vec!["x", "y"]);
    assert_eq!(texts(&f[0].terms), vec!["a()", "b()"]);
    let f = append_F(f, eq(vec![v("z")], Vec::new()));
    assert_eq!(f.len(), 2);
}

#[test]
fn extract_vars_finds_nested_variables() {
    let f = extract_vars(Vec::new(), vec![c("f", vec![v("x"), c("g", vec![v("y"), v("x")])])]);
    assert_eq!(f.len(), 2);
    assert_eq!(names(&f[0].equal), vec!["x"]);
    assert_eq!(names(&f[1].equal), vec!["y"]);
}

#[test]
fn matching_and_uniqueness() {
    assert!(complete_match(vec![v("x"), v("y")], vec![v("x"), v("y")]));
    assert!(!complete_match(vec![v("x"), v("y")], vec![v("y"), v("x")]));
    assert!(!complete_match(vec![v("x")], vec![v("x"), v("y")]));
    let f = vec![eq(vec![v("x"), v("y")], Vec::new()), eq(vec![v("z")], Vec::new())];
    assert!(unique(f, vec![v("x"), v("y")]));
    let f = vec![eq(vec![v("x"), v("y")], Vec::new())];
    assert!(!unique(f, vec![v("x")]));
    assert!(already_present("y".to_string(), vec![v("x"), v("y")]));
    assert!(!already_present("z".to_string(), vec![v("x"), v("y")]));
}

#[test]
fn merge_equals_drops_repeated_names() {
    let out = merge_equals(vec![eq(vec![v("x"), v("y"), v("x")], Vec::new())]);
    assert_eq!(names(&out[0].equal), vec!["x", "y"]);
}

#[test]
fn cleaning_and_removing() {
    let f = vec![eq(vec![v("\u{1F480}")], Vec::new()), eq(vec![v("x")], Vec::new())];
    let out = clean_F(f);
    assert_eq!(out.len(), 1);
    let f = vec![eq(vec![v("x")], Vec::new()), eq(vec![v("x"), v("y")], Vec::new())];
    let out = remove_from_EqTerm(f, eq(vec![v("x")], Vec::new()));
    assert_eq!(out.len(), 1);
    assert_eq!(names(&out[0].equal), vec!["x", "y"]);
}

#[test]
fn clear_empty_drops_clashing_empty_equation() {
    let f = vec![eq(vec![v("x"), v("y")], vec![c("a", Vec::new())]), eq(vec![v("x")], Vec::new())];
    let out = clear_empty(f);
    assert_eq!(out.len(), 1);
    assert_eq!(names(&out[0].equal), vec!["x", "y"]);
    let f = vec![eq(vec![v("x")], Vec::new())];
    assert_eq!(clear_empty(f).len(), 1);
}

#[test]
fn sub_unify_replaces_variables() {
    let out = sub_unify(c("a", Vec::new()), vec![v("x")], vec![c("f", vec![v("x"), v("y")]), v("x")]);
    assert_eq!(texts(&out), vec!["f(a(), y)", "a()"]);
}

#[test]
fn merge_equal_joins_equal_first_terms() {
    let a = vec![eq(vec![v("x")], vec![c("a", Vec::new())]), eq(vec![v("y")], vec![c("a", Vec::new())])];
    let out = merge_equal(a);
    assert_eq!(names(&out[0].equal), vec!["x", "y"]);
    assert!(out[1].equal.is_empty());
}

#[test]
fn unify_system_substitutes_and_merges() {
    let t = vec![
        eq(vec![v("h")], vec![c("f", vec![v("x"), v("y")])]),
        eq(vec![v("x")], vec![c("a", Vec::new())]),
        eq(vec![v("y")], vec![c("b", Vec::new())]),
    ];
    let out = unify_system(t);
    assert_eq!(out.len(), 3);
    assert_eq!(texts(&out[0].terms), vec!["f(a(), b())"]);
}

#[test]
fn fill_eq_counts_and_overflows() {
    let u = vec![eq(vec![v("x"), v("x")], Vec::new())];
    let out = fill_eq(u, vec![c("f", vec![v("x")]), v("y")]).unwrap();
    assert_eq!(out[0].instances, 2);
    let u = vec![EqTerm { instances: i32::MAX, equal: vec![v("x")], terms: Vec::new() }];
    assert!(fill_eq(u, vec![v("x")]).is_none());
}

#[test]
fn separate_detects_constructor_mismatch() {
    assert_eq!(separateCF(vec![parse("f(x)"), parse("g(y)")], Vec::new()).err(), Some(UnifyFailure::Mismatch));
    assert_eq!(separateCF(vec![parse("f(x)"), parse("f(x, y)")], Vec::new()).err(), Some(UnifyFailure::Mismatch));
    assert_eq!(separateCF(Vec::new(), Vec::new()).err(), Some(UnifyFailure::Undefined));
    let (common, f) = separateCF(vec![parse("f(x, b())"), parse("f(a(), y)")], Vec::new()).unwrap();
    assert_eq!(full_term(common), "f(x, y)");
    assert_eq!(f.len(), 2);
}

#[test]
fn get_cf_cycle_and_fresh_variable() {
    let u = vec![eq(vec![v("x")], vec![parse("f(x)")])];
    assert_eq!(getCF(u, Vec::new(), Vec::new(), 1).err(), Some(UnifyFailure::Cycle));
    let u = vec![eq(vec![v("x")], Vec::new())];
    let (ind, f, t) = getCF(u, Vec::new(), Vec::new(), 7).unwrap();
    assert_eq!((ind, f.len(), t.len()), (8, 0, 1));
    assert_eq!(texts(&t[0].terms), vec!["T7"]);
    let u = vec![eq(vec![v("x")], Vec::new())];
    assert_eq!(getCF(u, Vec::new(), Vec::new(), i32::MAX).err(), Some(UnifyFailure::Undefined));
}

#[test]
fn mart_mont_without_fuel_stops() {
    let u = vec![eq(vec![v("h")], vec![parse("x"), parse("a()")])];
    assert_eq!(MartMont(u, Vec::new(), Vec::new(), 1, 0).err(), Some(UnifyFailure::OutOfFuel));
    assert_eq!(MartMont(Vec::new(), Vec::new(), Vec::new(), 1, 0).unwrap().len(), 0);
}

#[test]
fn unify_variable_with_constant() {
    let t = unify_terms(parse("x"), parse("a()"), FUEL).unwrap();
    assert_eq!(format_T(&t), vec!["{\u{2665}} = (a()"]);
}

#[test]
fn unify_two_constructors() {
    let t = unify_terms(parse("f(x, b())"), parse("f(a(), y)"), FUEL).unwrap();
    assert_eq!(format_T(&t), vec!["{\u{2665}} = (f(a(), b())", "{x} = (a())", "{y} = (b())"]);
}

#[test]
fn more_fuel_gives_the_same_unification() {
    let base = format_T(&unify_terms(parse("f(x, g(y, z))"), parse("f(h(), g(z, x))"), FUEL).unwrap());
    for fuel in [FUEL * 3, FUEL * 50] {
        let t = unify_terms(parse("f(x, g(y, z))"), parse("f(h(), g(z, x))"), fuel).unwrap();
        assert_eq!(format_T(&t), base);
    }
}

#[test]
fn unify_two_variables_binds_fresh_variable() {
    let t = unify_terms(parse("x"), parse("y"), FUEL).unwrap();
    assert_eq!(format_T(&t), vec!["{\u{2665}} = (T1"]);
    assert_eq!(names(&t[0].equal), vec!["\u{2665}", "x", "y"]);
}

#[test]
fn unify_failures() {
    assert_eq!(unify_terms(parse("f(x)"), parse("g(y)"), FUEL).err(), Some(UnifyFailure::Mismatch));
    assert_eq!(unify_terms(parse("x"), parse("f(x)"), FUEL).err(), Some(UnifyFailure::Cycle));
}

#[test]
fn decimal_forms() {
    assert_eq!(decimal_string(0), "0");
    assert_eq!(decimal_string(1207), "1207");
    assert_eq!(decimal_string(-45), "-45");
    assert_eq!(decimal_string(i32::MIN), "-2147483648");
}
