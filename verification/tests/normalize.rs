use lib::normalize::regex::{
    Term, strip_spaces, parse_regex, parse_rule, parse_binary, parse_unary, reg_to_string, eps_node, leaf, clone_term,
    clone_terms, RegexError,
};
use lib::normalize::unify::{EqTerm, Rule, insert_carefully, conflicts, insert_terms, fill_eq, remove_from_EqTerm, sub_unify, magic};
use lib::normalize::separate::separateCF;
use lib::normalize::solve::{try_to_unify, unify_or_ignore, bfs_is_cancer, getCF, UnifyError, normalize_rounds};

const FUEL: u64 = 1000;

fn text(t: &Term) -> String {
    reg_to_string(clone_term(t))
}

fn expr(s: &str) -> (Term, Vec<Term>) {
    let (t, consts, _) = parse_regex(strip_spaces(s.to_string()), 0, Vec::new(), false, eps_node()).unwrap();
    (t, consts)
}

fn norm(s: &str, consts: &Vec<Term>) -> Rule {
    let (left, right) = parse_rule(strip_spaces(s.to_string()), 0, clone_terms(consts), true, eps_node()).unwrap().unwrap();
    Rule { left, right }
}

fn var(name: char) -> Term {
    leaf(vec![name], 1)
}

fn cst(name: char) -> Term {
    leaf(vec![name], 0)
}

fn texts(ts: &Vec<Term>) -> Vec<String> {
    ts.iter().map(text).collect()
}

#[test]
fn strip_spaces_removes_spaces_only() {
    assert_eq!(strip_spaces("( a | b ) *\n".to_string()), "(a|b)*\n");
    let once = strip_spaces(" x = a ".to_string());
    assert_eq!(strip_spaces(once.clone()), once);
}

#[test]
fn parse_and_print_expressions() {
    assert_eq!(text(&expr("(a|b)*").0), "(a|b)*");
    assert_eq!(text(&expr("(ab)").0), "(a++b)");
    assert_eq!(text(&expr("a*").0), "a*");
    assert_eq!(text(&expr("((a)*)*").0), "(a*)*");
    assert_eq!(text(&expr("").0), "(eps)");
    let (_, consts) = expr("(a|(b|a))");
    assert_eq!(texts(&consts), vec!["a", "b", "a"]);
}

#[test]
fn regex_parse_errors() {
    let p = |s: &str| parse_regex(s.to_string(), 0, Vec::new(), false, eps_node()).err();
    assert_eq!(p("(a"), Some(RegexError::Unbalanced));
    assert_eq!(p("(a|b"), Some(RegexError::Unbalanced));
    assert_eq!(p("+"), Some(RegexError::ForbiddenSymbol));
    assert_eq!(p("a+"), None);
}

#[test]
fn parse_rule_cases() {
    let consts = vec![cst('a')];
    let r = norm("x = a", &consts);
    assert_eq!(r.left.var, 1);
    assert_eq!(r.right.var, 0);
    assert!(parse_rule("x".to_string(), 0, Vec::new(), true, eps_node()).is_none());
    assert_eq!(parse_rule("x|a".to_string(), 0, Vec::new(), true, eps_node()).unwrap().err(), Some(RegexError::MissingEquals));
}

#[test]
fn parse_binary_and_unary() {
    let (t, p) = parse_binary("a|b".to_string(), 1, eps_node());
    assert_eq!((t.value.as_str(), p), ("|", 2));
    let (t, p) = parse_binary("ab".to_string(), 1, eps_node());
    assert_eq!((t.value.as_str(), p), ("++", 1));
    let (t, p) = parse_binary("a".to_string(), 1, eps_node());
    assert_eq!((t.value.as_str(), p), ("(eps)", 1));
    let (t, p) = parse_unary("a*".to_string(), 1, eps_node());
    assert_eq!((t.value.as_str(), p), ("*", 2));
    let (t, p) = parse_unary("ab".to_string(), 1, eps_node());
    assert_eq!((t.value.as_str(), p), ("(eps)", 1));
}

#[test]
fn insert_carefully_cases() {
    let (t, e) = insert_carefully(Vec::new(), vec![cst('a'), cst('a')]);
    assert_eq!((texts(&t), e), (vec!["a".to_string(), "a".to_string()], false));
    let (t, e) = insert_carefully(Vec::new(), vec![cst('a'), cst('b')]);
    assert_eq!((t.len(), e), (0, true));
    let (t, e) = insert_carefully(vec![cst('a')], vec![cst('a')]);
    assert_eq!((texts(&t), e), (vec!["a".to_string()], false));
    let (t, e) = insert_carefully(vec![cst('a')], vec![cst('b')]);
    assert_eq!((texts(&t), e), (vec!["a".to_string()], true));
}

fn eq(vars: Vec<Term>, terms: Vec<Term>) -> EqTerm {
    EqTerm { instances: 0, vars, terms }
}

#[test]
fn conflicts_cases() {
    let current = vec![eq(vec![var('x')], vec![cst('a')])];
    assert!(conflicts(vec![eq(vec![var('x')], vec![cst('a')])], vec![var('x')], vec![cst('b')]));
    assert!(!conflicts(current, vec![var('x')], vec![cst('a')]));
    assert!(!conflicts(vec![eq(vec![var('x')], vec![cst('a')])], vec![var('y')], vec![cst('b')]));
    assert!(!conflicts(Vec::new(), vec![var('x')], vec![cst('b')]));
}

#[test]
fn insert_terms_cases() {
    let (f, cur, err) = insert_terms(Vec::new(), vec![var('x')], vec![cst('a')], Vec::new()).unwrap();
    assert_eq!((f.len(), cur.len(), err), (1, 1, false));
    let (f2, cur2, err2) = insert_terms(f, vec![var('x')], vec![cst('b')], cur).unwrap();
    assert_eq!((f2.len(), cur2.len(), err2), (1, 1, true));
    let (f3, cur3, err3) = insert_terms(f2, vec![var('x')], vec![cst('a')], cur2).unwrap();
    assert_eq!((texts(&f3[0].terms), cur3.len(), err3), (vec!["a".to_string()], 2, false));
    assert!(insert_terms(vec![eq(vec![var('x')], Vec::new())], vec![var('x')], Vec::new(), Vec::new()).is_none());
}

#[test]
fn fill_eq_counts_variables() {
    let (t, _) = expr("(a|a)");
    let mut bar = clone_term(&t);
    bar.left = Some(Box::new(var('x')));
    bar.right = Some(Box::new(var('x')));
    let u = fill_eq(vec![eq(vec![var('x')], Vec::new())], clone_term(&bar)).unwrap();
    assert_eq!(u.len(), 1);
    assert_eq!(u[0].instances, 2);
    let u = fill_eq(Vec::new(), bar).unwrap();
    assert_eq!(u.len(), 1);
    assert_eq!(u[0].instances, 2);
    let full = EqTerm { instances: i32::MAX, vars: vec![var('x')], terms: Vec::new() };
    assert!(fill_eq(vec![full], var('x')).is_none());
}

#[test]
fn remove_from_eqterm_drops_exact_matches() {
    let f = vec![eq(vec![var('x')], vec![cst('a')]), eq(vec![var('y')], vec![cst('b')]), eq(vec![var('x'), var('y')], Vec::new())];
    let out = remove_from_EqTerm(f, eq(vec![var('x')], Vec::new()));
    assert_eq!(out.len(), 2);
    assert_eq!(text(&out[0].vars[0]), "y");
}

#[test]
fn sub_unify_replaces_named_variables() {
    let (t, _) = expr("(a|b)");
    let mut w = clone_term(&t);
    w.left = Some(Box::new(var('x')));
    let out = sub_unify(cst('c'), vec![var('x')], w).unwrap();
    assert_eq!(text(&out), "(c|b)");
    let same = sub_unify(cst('c'), vec![var('y')], var('x')).unwrap();
    assert_eq!(text(&same), "x");
}

#[test]
fn magic_substitutes_backwards() {
    let t = vec![eq(vec![var('z')], vec![var('x')]), eq(vec![var('x')], vec![cst('a')])];
    let out = magic(t);
    assert_eq!(text(&out[0].terms[0]), "a");
    assert_eq!(text(&out[1].terms[0]), "a");
}

#[test]
fn separate_operators_and_variables() {
    let (l, _) = expr("(a|a)");
    let r = norm("(x|x) = x", &Vec::new());
    let (c, f, cur, err) = separateCF(vec![l, clone_term(&r.left)], Vec::new(), Vec::new()).unwrap();
    assert!(!err);
    assert_eq!(text(&c), "(a|a)");
    assert_eq!(f.len(), 1);
    assert!(!cur.is_empty());
    let (a, _) = expr("a");
    let (_, _, _, err) = separateCF(vec![a, r.left], Vec::new(), Vec::new()).unwrap();
    assert!(err);
    assert!(separateCF(Vec::new(), Vec::new(), Vec::new()).is_none());
}

#[test]
fn get_cf_moves_single_valued_equation() {
    let u = vec![eq(vec![var('x')], vec![cst('a')])];
    let (f, t, _, err) = getCF(u, vec![eq(vec![var('x')], vec![cst('a')])], Vec::new(), Vec::new()).unwrap();
    assert!(!err);
    assert_eq!(f.len(), 0);
    assert_eq!(t.len(), 1);
    let (_, _, _, err) = getCF(Vec::new(), Vec::new(), Vec::new(), Vec::new()).unwrap();
    assert!(!err);
}

#[test]
fn rewriting_by_a_rule() {
    let (reg, consts) = expr("(a|a)");
    let rule = norm("(x|x) = x", &consts);
    let (t, failed) = try_to_unify(clone_term(&reg), clone_rule_of(&rule), FUEL).unwrap();
    assert!(!failed);
    assert_eq!(text(&t), "a");
    let (t, applied) = bfs_is_cancer(reg, vec![clone_rule_of(&rule)], FUEL).unwrap();
    assert!(applied);
    assert_eq!(text(&t), "a");
    let (t2, applied2) = bfs_is_cancer(t, vec![rule], FUEL).unwrap();
    assert!(!applied2);
    assert_eq!(text(&t2), "a");
}

#[test]
fn rewriting_inside_a_star() {
    let (reg, consts) = expr("((a|a))*");
    let rule = norm("(x|x) = x", &consts);
    let (t, applied) = bfs_is_cancer(reg, vec![rule], FUEL).unwrap();
    assert!(applied);
    assert_eq!(text(&t), "a*");
}

#[test]
fn rule_that_does_not_apply_keeps_expression() {
    let (reg, consts) = expr("(a|b)");
    let rule = norm("(x|x) = x", &consts);
    let (t, applied) = unify_or_ignore(clone_term(&reg), clone_rule_of(&rule), FUEL).unwrap();
    assert!(!applied);
    assert_eq!(text(&t), "(a|b)");
    let (t, applied) = bfs_is_cancer(reg, vec![rule], FUEL).unwrap();
    assert!(!applied);
    assert_eq!(text(&t), "(a|b)");
}

#[test]
fn more_fuel_gives_the_same_rewriting() {
    let (reg, consts) = expr("((a|a)b)*");
    let rule = norm("(x|x) = x", &consts);
    let mut results = Vec::new();
    for fuel in [FUEL, FUEL * 4, FUEL * 16] {
        let (t, applied) = bfs_is_cancer(clone_term(&reg), vec![clone_rule_of(&rule)], fuel).unwrap();
        results.push((text(&t), applied));
    }
    assert!(results[0].1);
    assert!(results.iter().all(|r| *r == results[0]));
}

#[test]
fn unification_without_fuel_stops() {
    let (reg, consts) = expr("(a|a)");
    let rule = norm("(x|x) = x", &consts);
    assert_eq!(try_to_unify(reg, rule, 0).err(), Some(UnifyError::OutOfFuel));
}

fn clone_rule_of(r: &Rule) -> Rule {
    Rule { left: clone_term(&r.left), right: clone_term(&r.right) }
}

#[test]
fn rounds_stop_when_nothing_changes() {
    let (reg, consts) = expr("((a|a)|(a|a))");
    let rule = norm("(x|x) = x", &consts);
    let rules = vec![rule];
    let (t, pending, taken) = normalize_rounds(clone_term(&reg), &rules, 500, FUEL).unwrap();
    assert_eq!(text(&t), "a");
    assert!(!pending);
    assert!(taken >= 2 && taken <= 500);
    let (t1, pending1, taken1) = normalize_rounds(clone_term(&reg), &rules, 1, FUEL).unwrap();
    assert!(pending1);
    assert_eq!(taken1, 1);
    assert_ne!(text(&t1), text(&reg));
    let (t0, pending0, taken0) = normalize_rounds(clone_term(&reg), &rules, 0, FUEL).unwrap();
    assert!(pending0);
    assert_eq!(taken0, 0);
    assert_eq!(text(&t0), text(&reg));
}
