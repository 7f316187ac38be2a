use lib::slr::grammar::{del_whitespaces, parse_rules, rule_to_string, Rule, Rule_body, GrammarError, inside, append_rule, formalize_roots};
use lib::slr::automaton::build_LR;
use lib::slr::conflicts::{get_conflicts, equal, intersect, resolve, Conflict};
use lib::slr::automaton::State;
use lib::slr::lookahead::{filter_strs, get_follows, FOLLOW};
use lib::slr::report::{start_rule, graph_lines, report_lines, resolve_all};

const FUEL: usize = 10_000;

fn lines(ls: &[&str]) -> Vec<String> {
    ls.iter().map(|s| del_whitespaces(format!("{}\n", s))).collect()
}

fn analyze(ls: &[&str], k: i32) -> (Vec<String>, Vec<String>) {
    let parsed = parse_rules(lines(ls)).unwrap();
    let (states, shifts, _) = build_LR(parsed.clone(), vec![start_rule()], Vec::new(), Vec::new(), 1, i32::MAX).unwrap();
    let graph = graph_lines(&states, &shifts);
    let conflicts = get_conflicts(states);
    let resolved = resolve_all(&parsed, conflicts, k, FUEL).unwrap();
    (graph, report_lines(&resolved, k))
}

#[test]
fn readme_grammar_without_conflicts() {
    let (graph, report) = analyze(&["[S] -> [A][B]", "[A] -> a[A] | b", "[B] -> b[B]", "[B] -> c"], 3);
    let expected = vec![
        "digraph {",
        "1 [shape = \"rectangle\" label = \"[♥] -> .[S]\n[S] -> .[A][B]\n[A] -> .a[A] | .b\"]",
        "2 [shape = \"rectangle\" peripheries = 2 label = \"[♥] -> [S].\"]",
        "3 [shape = \"rectangle\" label = \"[S] -> [A].[B]\n[B] -> .b[B] | .c\"]",
        "4 [shape = \"rectangle\" label = \"[S] -> [A][B].\"]",
        "5 [shape = \"rectangle\" label = \"[B] -> b.[B]\n[B] -> .b[B] | .c\"]",
        "6 [shape = \"rectangle\" label = \"[B] -> b[B].\"]",
        "7 [shape = \"rectangle\" label = \"[B] -> c.\"]",
        "8 [shape = \"rectangle\" label = \"[A] -> a.[A]\n[A] -> .a[A] | .b\"]",
        "9 [shape = \"rectangle\" label = \"[A] -> a[A].\"]",
        "10 [shape = \"rectangle\" label = \"[A] -> b.\"]",
        "1 -> 2 [label = \"S\"]",
        "1 -> 3 [label = \"A\"]",
        "3 -> 4 [label = \"B\"]",
        "3 -> 5 [label = \"b\"]",
        "5 -> 6 [label = \"B\"]",
        "5 -> 5 [label = \"b\"]",
        "5 -> 7 [label = \"c\"]",
        "3 -> 7 [label = \"c\"]",
        "1 -> 8 [label = \"a\"]",
        "8 -> 9 [label = \"A\"]",
        "8 -> 8 [label = \"a\"]",
        "8 -> 10 [label = \"b\"]",
        "1 -> 10 [label = \"b\"]",
        "}",
    ];
    assert_eq!(graph, expected);
    assert_eq!(report, vec!["Конфликтов нет (или все были разрешены)"]);
}

#[test]
fn automaton_states_are_numbered_and_linked() {
    let grammars: Vec<Vec<&str>> = vec![
        vec!["[S] -> [A][B]", "[A] -> a[A] | b", "[B] -> b[B]", "[B] -> c"],
        vec!["[S] -> [A][B]", "[A] -> id | idiom | idbomb | idcomb", "[B] -> bomb | comb"],
    ];
    for g in grammars {
        let parsed = parse_rules(lines(&g)).unwrap();
        let (states, shifts, next) = build_LR(parsed, vec![start_rule()], Vec::new(), Vec::new(), 1, i32::MAX).unwrap();
        assert_eq!(states.len() as i32, next - 1);
        for (k, st) in states.iter().enumerate() {
            assert_eq!(st.id, k as i32 + 1);
            assert!(!st.roots.is_empty());
        }
        for sh in &shifts {
            assert!(1 <= sh.fr && sh.fr <= states.len() as i32);
            assert!(1 <= sh.to && sh.to <= states.len() as i32);
        }
    }
}

#[test]
fn more_fuel_gives_the_same_conflict_report() {
    let g = ["[S] -> [A][B]", "[A] -> id | idiom | idbomb | idcomb", "[B] -> bomb | comb"];
    let parsed = parse_rules(lines(&g)).unwrap();
    let (states, _, _) = build_LR(parsed.clone(), vec![start_rule()], Vec::new(), Vec::new(), 1, i32::MAX).unwrap();
    let conflicts = get_conflicts(states);
    let mut reports = Vec::new();
    for fuel in [FUEL, FUEL * 3] {
        let attempt: Vec<_> = conflicts.iter().map(|c| c.clone()).collect();
        let resolved = resolve_all(&parsed, attempt, 3, fuel).unwrap();
        reports.push(report_lines(&resolved, 3));
    }
    assert_eq!(reports[0], reports[1]);
}

#[test]
fn readme_grammar_with_unresolved_conflict() {
    let (graph, report) = analyze(&["[S] -> [A][B]", "[A] -> id | idiom | idbomb | idcomb", "[B] -> bomb | comb"], 3);
    assert_eq!(graph.len(), 25 + 24 + 2);
    assert_eq!(graph[14], "14 [shape = \"rectangle\" label = \"[A] -> id. | id.iom | id.bomb | id.comb\"]");
    assert_eq!(graph[26], "1 -> 2 [label = \"S\"]");
    assert_eq!(graph[50], "}");
    assert_eq!(report, vec![
        "Конфликт между",
        "[A] -> id.",
        "[A] -> id.iom",
        "[A] -> id.bomb",
        "[A] -> id.comb",
        "не был разрешён при k = 3",
    ]);
}

#[test]
fn del_whitespaces_removes_blanks() {
    assert_eq!(del_whitespaces(" [S] ->\t[A] b \r\n".to_string()), "[S]->[A]b");
    let once = del_whitespaces("a b  c".to_string());
    assert_eq!(del_whitespaces(once.clone()), once);
}

#[test]
fn parse_rules_merges_heads() {
    let parsed = parse_rules(lines(&["[B] -> b[B]", "[B] -> c"])).unwrap();
    assert_eq!(parsed.len(), 1);
    assert_eq!(rule_to_string(parsed[0].clone()), "[B] -> .b[B] | .c");
}

#[test]
fn parse_rules_errors() {
    assert_eq!(parse_rules(lines(&["S -> [A]"])).err(), Some(GrammarError::NoStartNonterminal));
    assert_eq!(parse_rules(lines(&["[S -> a"])).err(), Some(GrammarError::UnclosedHead));
    assert_eq!(parse_rules(lines(&["[S -> a[A]", "[A] -> b"])).err(), Some(GrammarError::UnclosedHead));
    assert_eq!(parse_rules(lines(&["[S] = a"])).err(), Some(GrammarError::NoArrow));
    assert_eq!(parse_rules(lines(&["[S] -> a |"])).err(), Some(GrammarError::EmptyAlternative));
    assert_eq!(parse_rules(lines(&["[S] -> a[A"])).err(), Some(GrammarError::UnclosedNonterminal));
    assert_eq!(parse_rules(lines(&["[S] -> a+b"])).err(), Some(GrammarError::UnknownSymbol));
    assert_eq!(parse_rules(lines(&["[S]"])).err(), Some(GrammarError::NoArrow));
    assert_eq!(parse_rules(lines(&["[S]-"])).err(), Some(GrammarError::NoArrow));
    assert_eq!(parse_rules(lines(&["   "])).err(), Some(GrammarError::NoStartNonterminal));
}

#[test]
fn equal_and_intersect_are_symmetric() {
    let a = vec!["a$".to_string(), "b$".to_string()];
    let b = vec!["b$".to_string(), "a$".to_string(), "a$".to_string()];
    let c = vec!["c$".to_string(), "a$".to_string()];
    assert_eq!(equal(a.clone(), b.clone()), 1);
    assert_eq!(equal(b.clone(), a.clone()), 1);
    assert_eq!(equal(a.clone(), c.clone()), 0);
    assert_eq!(intersect(a.clone(), c.clone()), 1);
    assert_eq!(intersect(c.clone(), a.clone()), 1);
    assert_eq!(intersect(vec!["x$".to_string()], c), 0);
}

#[test]
fn inside_is_membership() {
    assert!(inside("b".to_string(), vec!["a".to_string(), "b".to_string()]));
    assert!(!inside("c".to_string(), vec!["a".to_string(), "b".to_string()]));
}

#[test]
fn filter_strs_cuts_before_end_marker() {
    let out = filter_strs(vec!["abc$".to_string(), "a$".to_string(), "abcd".to_string()], 2);
    assert_eq!(out, vec!["ab", "a", "ab"]);
}

#[test]
fn get_follows_of_unknown_head_is_one_empty_string() {
    let f = vec![FOLLOW { head: "A".to_string(), bodies: vec!["a$".to_string()] }];
    assert_eq!(get_follows(f.clone(), "A".to_string()), vec!["a$"]);
    assert_eq!(get_follows(f, "B".to_string()), vec![""]);
}

#[test]
fn append_rule_adds_to_existing_head() {
    let body = |p: &str| Rule_body { pre: String::new(), post: p.to_string() };
    let rules = append_rule(Vec::new(), "A".to_string(), vec![body(".a$")]);
    let rules = append_rule(rules, "B".to_string(), vec![body(".b$")]);
    let rules = append_rule(rules, "A".to_string(), vec![body(".c$")]);
    assert_eq!(rules.len(), 2);
    assert_eq!(rule_to_string(rules[0].clone()), "[A] -> .a | .c");
}

#[test]
fn formalize_roots_merges_heads() {
    let body = |p: &str| Rule_body { pre: String::new(), post: p.to_string() };
    let roots = vec![
        Rule { head: "A".to_string(), bodies: vec![body(".a$")] },
        Rule { head: "A".to_string(), bodies: vec![body(".b$")] },
    ];
    let out = formalize_roots(roots);
    assert_eq!(out.len(), 1);
    assert_eq!(out[0].bodies.len(), 2);
}

#[test]
fn resolve_all_with_zero_lookahead_keeps_conflicts() {
    let parsed = parse_rules(lines(&["[S] -> [A][B]", "[A] -> id | idiom", "[B] -> b"])).unwrap();
    let (states, _, _) = build_LR(parsed.clone(), vec![start_rule()], Vec::new(), Vec::new(), 1, i32::MAX).unwrap();
    let conflicts = get_conflicts(states);
    assert_eq!(conflicts.len(), 1);
    let same = resolve_all(&parsed, conflicts, 0, FUEL).unwrap();
    assert_eq!(report_lines(&same, 0), vec![
        "Конфликт между",
        "[A] -> id.",
        "[A] -> id.iom",
        "не был разрешён при k = 0",
    ]);
}

#[test]
fn conflict_resolved_with_enough_lookahead() {
    let parsed = parse_rules(lines(&["[S] -> [A][B]", "[A] -> id | idiom", "[B] -> b"])).unwrap();
    let (states, _, _) = build_LR(parsed.clone(), vec![start_rule()], Vec::new(), Vec::new(), 1, i32::MAX).unwrap();
    let conflicts = get_conflicts(states);
    let resolved = resolve_all(&parsed, conflicts, 3, FUEL).unwrap();
    assert_eq!(report_lines(&resolved, 3), vec![
        "Конфликт между",
        "[A] -> id.",
        "[A] -> id.iom",
        "разрешился при k = 1",
        "Конфликтов нет (или все были разрешены)",
    ]);
}

fn item(head: &str, pre: &str, post: &str) -> Rule {
    Rule { head: head.to_string(), bodies: vec![Rule_body { pre: pre.to_string(), post: post.to_string() }] }
}

#[test]
fn one_conflict_per_conflicting_state() {
    let kernel = vec![item("A", "a", ".$"), item("B", "b", ".$")];
    let state = State { id: 1, roots: kernel.clone(), rules: kernel.clone() };
    let conflicts = get_conflicts(vec![state]);
    assert_eq!(conflicts.len(), 1);
    assert_eq!(conflicts[0].sides.len(), 2);
    assert_eq!(rule_to_string(conflicts[0].sides[0].clone()), "[A] -> a.");
    assert_eq!(rule_to_string(conflicts[0].sides[1].clone()), "[B] -> b.");
    assert_eq!(conflicts[0].resolved, 0);
    assert!(!conflicts[0].done);
}

#[test]
fn two_sides_with_equal_sets_hang() {
    let follows = vec![
        FOLLOW { head: "A".to_string(), bodies: vec!["x$".to_string()] },
        FOLLOW { head: "B".to_string(), bodies: vec!["x$".to_string()] },
    ];
    let conflict = Conflict { sides: vec![item("A", "a", ".$"), item("B", "b", ".$")], resolved: 0, done: false };
    let (out, ok) = resolve(Vec::new(), follows, vec![conflict], 1, FUEL).unwrap();
    assert!(!ok);
    assert!(!out[0].done);
    assert_eq!(out[0].resolved, 1);
    assert_eq!(report_lines(&out, 1), vec![
        "Конфликт между",
        "[A] -> a.",
        "[B] -> b.",
        "в подвешенном состоянии при k = 1",
    ]);
}
