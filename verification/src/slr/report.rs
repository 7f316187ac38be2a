//! The output of the analysis: the automaton as a DOT graph, the conflicts
//! checked with growing lookahead, and the verdict on each.
use vstd::prelude::*;
use crate::slr::grammar::{Rule, RuleV, BodyV, Rule_body, rules_view, rule_text, rule_to_string, printable_rule, printable_body, clone_rules};
use crate::slr::grammar::close_from;
use crate::slr::automaton::{word_from, State, StateV, Shift, ShiftV, states_view, shifts_view, wf_post, wf_rules, states_wf};
use crate::slr::lookahead::{follow_k, follow_k_spec, filter, filter_spec, filter_ok};
use crate::slr::conflicts::{Conflict, ConflictV, conflicts_view, resolve, resolve_spec, resolve_ok, resolve_one, comp_sides, get_conflicts_spec, state_conflicts, split_rules};
use crate::slr::checks::{states_printable, filter_ok_exec, resolve_ok_exec};
use crate::text::{decimal, decimal_string, decimal_usize, nat_digits, lit, push_str, push_char, char_string, empty_string};

verus! {

/// Why the analysis could not be carried out.
#[derive(Clone, Copy, Debug, PartialEq, Eq)]
pub enum AnalysisError {
    /// A step indexes out of range or overflows.
    Undefined,
    /// A FIRST_k computation took more steps than allowed.
    OutOfFuel,
}

/// The name of the added start rule.
pub open spec fn heart_text() -> Seq<char> {
    seq!['\u{2665}']
}

/// The added start rule `[♥] -> .[S]`.
pub open spec fn start_rule_spec() -> RuleV {
    RuleV { head: heart_text(), bodies: seq![BodyV { pre: Seq::empty(), post: seq!['.', '[', 'S', ']', '$'] }] }
}

/// The added start rule `[♥] -> .[S]`, the root of the first state.
pub fn start_rule() -> (res: Rule)
    ensures
        res@ == start_rule_spec(),
        wf_rules(seq![res@]),
{
    proof {
        let p = seq!['.', '[', 'S', ']', '$'];
        assert(close_from(p, 3) == 3);
        assert(close_from(p, 2) == 3);
        assert(word_from(p, 4));
        assert(word_from(p, 1));
        assert(wf_post(p));
    }
    let post = crate::text::string_of(&['.', '[', 'S', ']', '$']);
    let body = Rule_body { pre: empty_string(), post };
    let bodies = vec![body];
    let r = Rule { head: char_string('\u{2665}'), bodies };
    assert(r@.bodies =~= start_rule_spec().bodies);
    r
}

/// The items of a state, one per line.
pub open spec fn label_text(rs: Seq<RuleV>) -> Seq<char>
    decreases rs.len(),
{
    if rs.len() == 0 {
        Seq::empty()
    } else if rs.len() == 1 {
        rule_text(rs[0])
    } else {
        label_text(rs.drop_last()) + seq!['\n'] + rule_text(rs.last())
    }
}

/// The DOT line of a state: a rectangle labelled with its items, doubled
/// for the accepting state 2.
pub open spec fn state_line(st: StateV) -> Seq<char> {
    decimal(st.id as int) + " [shape = \"rectangle\" "@ + (if st.id == 2 { "peripheries = 2 "@ } else { Seq::empty() })
        + "label = \""@ + label_text(st.rules) + "\"]"@
}

/// The DOT line of a transition, labelled with its symbol.
pub open spec fn shift_line(sh: ShiftV) -> Seq<char> {
    decimal(sh.fr as int) + " -> "@ + decimal(sh.to as int) + " [label = \""@ + sh.value + "\"]"@
}

pub open spec fn state_lines(sts: Seq<StateV>) -> Seq<Seq<char>> {
    sts.map_values(|st: StateV| state_line(st))
}

pub open spec fn shift_lines(shs: Seq<ShiftV>) -> Seq<Seq<char>> {
    shs.map_values(|sh: ShiftV| shift_line(sh))
}

/// The automaton as a directed graph in DOT: the states, then the
/// transitions.
pub open spec fn graph_spec(sts: Seq<StateV>, shs: Seq<ShiftV>) -> Seq<Seq<char>> {
    seq!["digraph {"@] + state_lines(sts) + shift_lines(shs) + seq!["}"@]
}

pub open spec fn strings_view(s: Seq<String>) -> Seq<Seq<char>> {
    s.map_values(|x: String| x@)
}

fn label_exec(rs: &Vec<Rule>) -> (res: String)
    requires
        forall|j: int| 0 <= j < rs@.len() ==> printable_rule(#[trigger] rs@[j]@),
    ensures
        res@ == label_text(rules_view(rs@)),
{
    let ghost rv = rules_view(rs@);
    let mut out = empty_string();
    let mut j: usize = 0;
    while j < rs.len()
        invariant
            j <= rs.len(),
            rv == rules_view(rs@),
            forall|j1: int| 0 <= j1 < rs@.len() ==> printable_rule(#[trigger] rs@[j1]@),
            out@ == label_text(rv.take(j as int)),
        decreases rs.len() - j,
    {
        assert(rv[j as int] == rs@[j as int]@);
        let t = rule_to_string(rs[j].clone());
        assert(rv.take(j + 1).drop_last() =~= rv.take(j as int));
        if j > 0 {
            push_char(&mut out, '\n');
        }
        push_str(&mut out, &t);
        assert(out@ =~= label_text(rv.take(j + 1)));
        j += 1;
    }
    assert(rv.take(j as int) =~= rv);
    out
}

/// The automaton as a DOT graph (see [`graph_spec`]).
pub fn graph_lines(states: &Vec<State>, shifts: &Vec<Shift>) -> (res: Vec<String>)
    requires
        states_printable(states_view(states@)),
    ensures
        strings_view(res@) == graph_spec(states_view(states@), shifts_view(shifts@)),
{
    let ghost sv = states_view(states@);
    let ghost hv = shifts_view(shifts@);
    let mut lines: Vec<String> = Vec::new();
    lines.push(lit("digraph {"));
    let mut i: usize = 0;
    while i < states.len()
        invariant
            i <= states.len(),
            sv == states_view(states@),
            states_printable(sv),
            strings_view(lines@) == seq!["digraph {"@] + state_lines(sv).take(i as int),
        decreases states.len() - i,
    {
        let st = &states[i];
        assert(sv[i as int] == st@);
        assert forall|j: int| 0 <= j < st.rules@.len() implies printable_rule(#[trigger] st.rules@[j]@) by {
            assert(sv[i as int].rules[j] == st.rules@[j]@);
        }
        let mut line = decimal_string(st.id);
        push_str(&mut line, &lit(" [shape = \"rectangle\" "));
        if st.id == 2 {
            push_str(&mut line, &lit("peripheries = 2 "));
        }
        push_str(&mut line, &lit("label = \""));
        push_str(&mut line, &label_exec(&st.rules));
        push_str(&mut line, &lit("\"]"));
        assert(line@ =~= state_line(st@));
        let ghost prev = strings_view(lines@);
        lines.push(line);
        assert(strings_view(lines@) =~= prev.push(line@));
        assert(state_lines(sv).take(i + 1) =~= state_lines(sv).take(i as int).push(state_line(sv[i as int])));
        i += 1;
    }
    assert(state_lines(sv).take(i as int) =~= state_lines(sv));
    let ghost mid = strings_view(lines@);
    let mut i: usize = 0;
    while i < shifts.len()
        invariant
            i <= shifts.len(),
            hv == shifts_view(shifts@),
            strings_view(lines@) == mid + shift_lines(hv).take(i as int),
        decreases shifts.len() - i,
    {
        let sh = &shifts[i];
        assert(hv[i as int] == sh@);
        let mut line = decimal_string(sh.fr);
        push_str(&mut line, &lit(" -> "));
        push_str(&mut line, &decimal_string(sh.to));
        push_str(&mut line, &lit(" [label = \""));
        push_str(&mut line, &sh.value);
        push_str(&mut line, &lit("\"]"));
        assert(line@ =~= shift_line(sh@));
        let ghost prev = strings_view(lines@);
        lines.push(line);
        assert(strings_view(lines@) =~= prev.push(line@));
        assert(shift_lines(hv).take(i + 1) =~= shift_lines(hv).take(i as int).push(shift_line(hv[i as int])));
        i += 1;
    }
    assert(shift_lines(hv).take(i as int) =~= shift_lines(hv));
    let ghost prev = strings_view(lines@);
    lines.push(lit("}"));
    assert(strings_view(lines@) =~= prev.push("}"@));
    assert(strings_view(lines@) =~= graph_spec(sv, hv));
    lines
}

/// The verdict on a conflict after checking it up to lookahead `k`.
pub open spec fn verdict_line(c: ConflictV, k: int) -> Seq<char> {
    if c.done {
        "разрешился при k = "@ + nat_digits(c.resolved as nat)
    } else if c.resolved != 0 {
        "в подвешенном состоянии при k = "@ + nat_digits(c.resolved as nat)
    } else {
        "не был разрешён при k = "@ + decimal(k)
    }
}

pub open spec fn side_lines(sides: Seq<RuleV>) -> Seq<Seq<char>> {
    sides.map_values(|r: RuleV| rule_text(r))
}

/// The lines of one conflict: its items, then its verdict.
pub open spec fn conflict_lines(c: ConflictV, k: int) -> Seq<Seq<char>> {
    seq!["Конфликт между"@] + side_lines(c.sides) + seq![verdict_line(c, k)]
}

pub open spec fn all_conflict_lines(cs: Seq<ConflictV>, k: int) -> Seq<Seq<char>>
    decreases cs.len(),
{
    if cs.len() == 0 {
        Seq::empty()
    } else {
        all_conflict_lines(cs.drop_last(), k) + conflict_lines(cs.last(), k)
    }
}

/// The number of resolved conflicts.
pub open spec fn done_count(cs: Seq<ConflictV>) -> nat
    decreases cs.len(),
{
    if cs.len() == 0 {
        0
    } else {
        done_count(cs.drop_last()) + if cs.last().done { 1nat } else { 0nat }
    }
}

/// The report on the conflicts: the lines of each, and a closing line when
/// all are resolved (or there are none).
pub open spec fn report_spec(cs: Seq<ConflictV>, k: int) -> Seq<Seq<char>> {
    all_conflict_lines(cs, k) + if done_count(cs) == cs.len() { seq!["Конфликтов нет (или все были разрешены)"@] } else { Seq::empty() }
}

/// Every item of every conflict can be printed.
pub open spec fn conflicts_printable(cs: Seq<ConflictV>) -> bool {
    forall|i: int, j: int| 0 <= i < cs.len() && 0 <= j < cs[i].sides.len() ==> printable_rule(#[trigger] cs[i].sides[j])
}

/// The report on the conflicts checked up to lookahead `k` (see
/// [`report_spec`]).
pub fn report_lines(conflicts: &Vec<Conflict>, k: i32) -> (res: Vec<String>)
    requires
        conflicts_printable(conflicts_view(conflicts@)),
    ensures
        strings_view(res@) == report_spec(conflicts_view(conflicts@), k as int),
{
    let ghost cv = conflicts_view(conflicts@);
    let mut lines: Vec<String> = Vec::new();
    let mut happy: usize = 0;
    assert(strings_view(lines@) =~= all_conflict_lines(cv.take(0), k as int));
    let mut i: usize = 0;
    while i < conflicts.len()
        invariant
            i <= conflicts.len(),
            cv == conflicts_view(conflicts@),
            conflicts_printable(cv),
            happy as nat == done_count(cv.take(i as int)),
            happy <= i,
            strings_view(lines@) == all_conflict_lines(cv.take(i as int), k as int),
        decreases conflicts.len() - i,
    {
        let c = &conflicts[i];
        assert(cv[i as int] == c@);
        assert(cv.take(i + 1).drop_last() =~= cv.take(i as int));
        assert(cv.take(i + 1).last() == cv[i as int]);
        let ghost base = strings_view(lines@);
        lines.push(lit("Конфликт между"));
        let mut j: usize = 0;
        while j < c.sides.len()
            invariant
                i < conflicts.len(),
                c == conflicts@[i as int],
                cv == conflicts_view(conflicts@),
                cv[i as int] == c@,
                conflicts_printable(cv),
                j <= c.sides.len(),
                strings_view(lines@) == base + seq!["Конфликт между"@] + side_lines(c@.sides).take(j as int),
            decreases c.sides.len() - j,
        {
            assert(c@.sides[j as int] == c.sides@[j as int]@);
            assert(printable_rule(cv[i as int].sides[j as int]));
            let t = rule_to_string(c.sides[j].clone());
            let ghost prev = strings_view(lines@);
            lines.push(t);
            assert(strings_view(lines@) =~= prev.push(t@));
            assert(side_lines(c@.sides).take(j + 1) =~= side_lines(c@.sides).take(j as int).push(side_lines(c@.sides)[j as int]));
            j += 1;
        }
        assert(side_lines(c@.sides).take(j as int) =~= side_lines(c@.sides));
        let mut v = if c.done {
            lit("разрешился при k = ")
        } else if c.resolved != 0 {
            lit("в подвешенном состоянии при k = ")
        } else {
            lit("не был разрешён при k = ")
        };
        if c.done || c.resolved != 0 {
            push_str(&mut v, &decimal_usize(c.resolved));
        } else {
            push_str(&mut v, &decimal_string(k));
        }
        assert(v@ =~= verdict_line(c@, k as int));
        let ghost prev = strings_view(lines@);
        lines.push(v);
        assert(strings_view(lines@) =~= prev.push(v@));
        assert(strings_view(lines@) =~= all_conflict_lines(cv.take(i + 1), k as int));
        if c.done {
            happy += 1;
        }
        i += 1;
    }
    assert(cv.take(i as int) =~= cv);
    if happy == conflicts.len() {
        let ghost prev = strings_view(lines@);
        lines.push(lit("Конфликтов нет (или все были разрешены)"));
        assert(strings_view(lines@) =~= prev.push("Конфликтов нет (или все были разрешены)"@));
    }
    assert(strings_view(lines@) =~= report_spec(cv, k as int));
    lines
}

/// Every item of every conflict is well formed.
pub open spec fn conflicts_wf(cs: Seq<ConflictV>) -> bool {
    forall|i: int| 0 <= i < cs.len() ==> wf_rules(#[trigger] cs[i].sides)
}

/// Checking the conflicts `cs` with lookahead `i`, `i + 1`, ... up to `k`,
/// stopping as soon as all are resolved: each round computes the FOLLOW
/// sets, cuts them to `i` characters and resolves (see [`resolve_spec`]).
pub open spec fn resolve_upto_spec(rules: Seq<RuleV>, cs: Seq<ConflictV>, i: int, k: int, fuel: nat) -> Result<Seq<ConflictV>, AnalysisError>
    decreases k - i + 1,
{
    if i < 1 || i > k {
        Ok(cs)
    } else {
        match follow_k_spec(rules, i, fuel) {
            None => Err(AnalysisError::OutOfFuel),
            Some(f) => if !filter_ok(f, i) {
                Err(AnalysisError::Undefined)
            } else {
                let ff = filter_spec(f, i);
                if !resolve_ok(rules, ff, cs, i, fuel) {
                    Err(AnalysisError::Undefined)
                } else {
                    match resolve_spec(rules, ff, cs, i as usize, fuel) {
                        None => Err(AnalysisError::OutOfFuel),
                        Some((cs2, ok)) => if ok {
                            Ok(cs2)
                        } else {
                            resolve_upto_spec(rules, cs2, i + 1, k, fuel)
                        },
                    }
                }
            },
        }
    }
}

/// Checking the conflicts with lookahead 1 to `k` (see
/// [`resolve_upto_spec`]); `k` must leave room for `k + 1`.
pub open spec fn resolve_all_spec(rules: Seq<RuleV>, cs: Seq<ConflictV>, k: int, fuel: nat) -> Result<Seq<ConflictV>, AnalysisError> {
    if k >= i32::MAX {
        Err(AnalysisError::Undefined)
    } else {
        resolve_upto_spec(rules, cs, 1, k, fuel)
    }
}

proof fn lemma_resolve_keeps_sides(rules: Seq<RuleV>, ff: Seq<crate::slr::lookahead::FollowV>, cs: Seq<ConflictV>, kk: usize, fuel: nat)
    requires
        resolve_spec(rules, ff, cs, kk, fuel) is Some,
    ensures
        resolve_spec(rules, ff, cs, kk, fuel)->Some_0.0.len() == cs.len(),
        forall|i: int| 0 <= i < cs.len() ==> (#[trigger] resolve_spec(rules, ff, cs, kk, fuel)->Some_0.0[i]).sides == cs[i].sides,
    decreases cs.len(),
{
    if cs.len() > 0 {
        lemma_resolve_keeps_sides(rules, ff, cs.drop_last(), kk, fuel);
    }
}

/// The value of a result of [`resolve_all`].
pub open spec fn resolve_all_view(r: Result<Vec<Conflict>, AnalysisError>) -> Result<Seq<ConflictV>, AnalysisError> {
    match r {
        Ok(v) => Ok(conflicts_view(v@)),
        Err(e) => Err(e),
    }
}

/// Checks the conflicts with lookahead 1 to `k` (see [`resolve_all_spec`]).
#[verifier::loop_isolation(false)]
pub fn resolve_all(rules: &Vec<Rule>, conflicts: Vec<Conflict>, k: i32, fuel: usize) -> (res: Result<Vec<Conflict>, AnalysisError>)
    requires
        wf_rules(rules_view(rules@)),
        conflicts_wf(conflicts_view(conflicts@)),
    ensures
        resolve_all_view(res) == resolve_all_spec(rules_view(rules@), conflicts_view(conflicts@), k as int, fuel as nat),
        res matches Ok(r) ==> conflicts_wf(conflicts_view(r@)) && conflicts_printable(conflicts_view(r@)),
{
    let ghost rv = rules_view(rules@);
    let ghost goal = resolve_all_spec(rv, conflicts_view(conflicts@), k as int, fuel as nat);
    if k == i32::MAX {
        return Err(AnalysisError::Undefined);
    }
    let mut cs = conflicts;
    let mut i: i32 = 1;
    while i <= k
        invariant
            rv == rules_view(rules@),
            wf_rules(rv),
            1 <= i,
            k < i32::MAX,
            conflicts_wf(conflicts_view(cs@)),
            goal == resolve_upto_spec(rv, conflicts_view(cs@), i as int, k as int, fuel as nat),
        decreases k + 1 - i,
    {
        let f = match follow_k(clone_rules(rules), i, fuel) {
            None => {
                return Err(AnalysisError::OutOfFuel);
            },
            Some(f) => f,
        };
        if !filter_ok_exec(&f, i as usize) {
            return Err(AnalysisError::Undefined);
        }
        let ff = filter(f, i as usize);
        if !resolve_ok_exec(rules, &ff, &cs, i as usize, fuel) {
            return Err(AnalysisError::Undefined);
        }
        let ghost fv = crate::slr::lookahead::follows_view(ff@);
        let ghost cv = conflicts_view(cs@);
        match resolve(clone_rules(rules), ff, cs, i as usize, fuel) {
            None => {
                return Err(AnalysisError::OutOfFuel);
            },
            Some((cs2, ok)) => {
                proof {
                    lemma_resolve_keeps_sides(rv, fv, cv, i as usize, fuel as nat);
                    assert forall|a: int| 0 <= a < conflicts_view(cs2@).len() implies wf_rules(#[trigger] conflicts_view(cs2@)[a].sides) by {
                        assert(conflicts_view(cs2@)[a].sides == cv[a].sides);
                    }
                }
                if ok {
                    proof {
                        lemma_wf_printable(conflicts_view(cs2@));
                    }
                    return Ok(cs2);
                }
                cs = cs2;
            },
        }
        i += 1;
    }
    proof {
        lemma_wf_printable(conflicts_view(cs@));
    }
    Ok(cs)
}

proof fn lemma_split_wf(rs: Seq<RuleV>)
    requires
        wf_rules(rs),
    ensures
        wf_rules(split_rules(rs)),
    decreases rs.len(),
{
    if rs.len() > 0 {
        lemma_split_wf(rs.drop_last());
        let r = rs.last();
        let out = split_rules(rs);
        let left = split_rules(rs.drop_last());
        assert forall|i: int, k: int| 0 <= i < out.len() && 0 <= k < out[i].bodies.len() implies wf_post(#[trigger] out[i].bodies[k].post) by {
            if i < left.len() {
                assert(out[i] == left[i]);
            } else {
                assert(wf_post(rs[rs.len() - 1].bodies[i - left.len()].post));
            }
        }
    }
}

/// The conflicts of an automaton whose kernels are well formed have well
/// formed items.
pub proof fn lemma_conflicts_wf(sts: Seq<StateV>)
    requires
        states_wf(sts),
    ensures
        conflicts_wf(get_conflicts_spec(sts)),
    decreases sts.len(),
{
    if sts.len() > 0 {
        lemma_conflicts_wf(sts.drop_last());
        assert(wf_rules(sts[sts.len() - 1].roots));
        lemma_split_wf(sts.last().roots);
        let left = get_conflicts_spec(sts.drop_last());
        let out = get_conflicts_spec(sts);
        assert forall|i: int| 0 <= i < out.len() implies wf_rules(#[trigger] out[i].sides) by {
            if i < left.len() {
                assert(out[i] == left[i]);
            }
        }
    }
}

/// Well-formed conflicts can be printed.
pub proof fn lemma_wf_printable(cs: Seq<ConflictV>)
    requires
        conflicts_wf(cs),
    ensures
        conflicts_printable(cs),
{
    assert forall|i: int, j: int| 0 <= i < cs.len() && 0 <= j < cs[i].sides.len() implies printable_rule(#[trigger] cs[i].sides[j]) by {
        assert(wf_rules(cs[i].sides));
        assert forall|b: int| 0 <= b < cs[i].sides[j].bodies.len() implies printable_body(#[trigger] cs[i].sides[j].bodies[b]) by {
            let p = cs[i].sides[j].bodies[b].post;
            assert(wf_post(p));
            assert('\0' <= p[p.len() - 1] <= '\u{7f}');
        }
    }
}

} // verus!
