//! Executable tests of the conditions under which the lookahead steps are
//! defined, and what printing a state needs.
use vstd::prelude::*;
use crate::slr::grammar::{Rule, rules_view, printable_rule};
use crate::slr::automaton::{StateV, wf_post, wf_rules};
use crate::slr::lookahead::{FOLLOW, follows_view, filter_ok, cuttable};
use crate::slr::conflicts::{Conflict, conflicts_view, resolve_ok, raw_cands, cands_cuttable, raw_candidates};
use crate::text::{char_at, char_len};

verus! {

/// Every rule of every state can be printed.
pub open spec fn states_printable(sts: Seq<StateV>) -> bool {
    forall|i: int, j: int| 0 <= i < sts.len() && 0 <= j < sts[i].rules.len() ==> printable_rule(#[trigger] sts[i].rules[j])
}

/// Whether `s` can be cut to `k` characters (see [`cuttable`]).
fn cuttable_exec(s: &String, k: usize) -> (res: bool)
    ensures
        res == cuttable(s@, k as int),
{
    let n = char_len(s);
    if k <= n {
        return true;
    }
    let mut i: usize = 0;
    while i < n
        invariant
            n == s@.len(),
            i <= n,
            forall|j: int| 0 <= j < i ==> #[trigger] s@[j] != '$',
        decreases n - i,
    {
        if char_at(s, i) == '$' {
            assert(s@.contains('$'));
            return true;
        }
        i += 1;
    }
    false
}

/// Whether every string of `v` can be cut to `k` characters.
fn all_cuttable(v: &Vec<String>, k: usize) -> (res: bool)
    ensures
        res == forall|m: int| 0 <= m < v@.len() ==> cuttable(#[trigger] v@[m]@, k as int),
{
    let mut i: usize = 0;
    while i < v.len()
        invariant
            i <= v.len(),
            forall|m: int| 0 <= m < i ==> cuttable(#[trigger] v@[m]@, k as int),
        decreases v.len() - i,
    {
        if !cuttable_exec(&v[i], k) {
            return false;
        }
        i += 1;
    }
    true
}

/// Whether the strings that [`crate::slr::lookahead::filter`] cuts can be
/// cut (see [`filter_ok`]).
pub fn filter_ok_exec(follows: &Vec<FOLLOW>, k: usize) -> (res: bool)
    ensures
        res == filter_ok(follows_view(follows@), k as int),
{
    let ghost fv = follows_view(follows@);
    let s = crate::text::char_string('S');
    let mut i: usize = 0;
    while i < follows.len()
        invariant
            i <= follows.len(),
            fv == follows_view(follows@),
            s@ == seq!['S'],
            forall|a: int, j: int| 0 <= a < i && 0 <= j < fv[a].bodies.len() && fv[a].head != seq!['S']
                ==> cuttable(#[trigger] fv[a].bodies[j], k as int),
        decreases follows.len() - i,
    {
        assert(fv[i as int] == follows@[i as int]@);
        if follows[i].head != s {
            let ok = all_cuttable(&follows[i].bodies, k);
            assert(fv[i as int].head != seq!['S']);
            assert forall|j: int| 0 <= j < fv[i as int].bodies.len() implies fv[i as int].bodies[j] == follows@[i as int].bodies@[j]@ by {}
            if !ok {
                proof {
                    let m = choose|m: int| 0 <= m < follows@[i as int].bodies@.len() && !cuttable(#[trigger] follows@[i as int].bodies@[m]@, k as int);
                    assert(fv[i as int].bodies[m] == follows@[i as int].bodies@[m]@);
                    assert(!cuttable(fv[i as int].bodies[m], k as int));
                }
                return false;
            }
        }
        i += 1;
    }
    true
}

/// Whether `resolve` is defined on these well-formed conflicts (see
/// [`resolve_ok`]): their lookahead strings can be cut.
pub fn resolve_ok_exec(rules: &Vec<Rule>, follows: &Vec<FOLLOW>, conflicts: &Vec<Conflict>, kk: usize, fuel: usize) -> (res: bool)
    requires
        wf_rules(rules_view(rules@)),
        forall|a: int| 0 <= a < conflicts@.len() ==> wf_rules(#[trigger] conflicts_view(conflicts@)[a].sides),
        kk <= i32::MAX,
    ensures
        res == resolve_ok(rules_view(rules@), follows_view(follows@), conflicts_view(conflicts@), kk as int, fuel as nat),
{
    let ghost rv = rules_view(rules@);
    let ghost fv = follows_view(follows@);
    let ghost cv = conflicts_view(conflicts@);
    let mut i: usize = 0;
    while i < conflicts.len()
        invariant
            i <= conflicts.len(),
            rv == rules_view(rules@),
            fv == follows_view(follows@),
            cv == conflicts_view(conflicts@),
            wf_rules(rv),
            kk <= i32::MAX,
            forall|a: int| 0 <= a < conflicts@.len() ==> wf_rules(#[trigger] cv[a].sides),
            forall|a: int, j: int, k: int| 0 <= a < i && 0 <= j < cv[a].sides.len() && 0 <= k < cv[a].sides[j].bodies.len() ==>
                cands_cuttable(#[trigger] raw_cands(rv, fv, cv[a].sides[j], cv[a].sides[j].bodies[k], kk as int, fuel as nat), kk as int),
        decreases conflicts.len() - i,
    {
        assert(cv[i as int] == conflicts@[i as int]@);
        let sides = &conflicts[i].sides;
        assert(cv[i as int].sides == rules_view(sides@));
        let ghost sv = rules_view(sides@);
        let mut j: usize = 0;
        while j < sides.len()
            invariant
                i < conflicts.len(),
                sides == conflicts@[i as int].sides,
                rv == rules_view(rules@),
                fv == follows_view(follows@),
                cv == conflicts_view(conflicts@),
                sv == rules_view(sides@),
                cv[i as int].sides == sv,
                wf_rules(rv),
                wf_rules(sv),
                kk <= i32::MAX,
                j <= sides.len(),
                forall|a: int| 0 <= a < i ==> wf_rules(#[trigger] cv[a].sides),
                forall|a: int, j1: int, k: int| 0 <= a < i && 0 <= j1 < cv[a].sides.len() && 0 <= k < cv[a].sides[j1].bodies.len() ==>
                    cands_cuttable(#[trigger] raw_cands(rv, fv, cv[a].sides[j1], cv[a].sides[j1].bodies[k], kk as int, fuel as nat), kk as int),
                forall|j1: int, k: int| 0 <= j1 < j && 0 <= k < sv[j1].bodies.len() ==>
                    cands_cuttable(#[trigger] raw_cands(rv, fv, sv[j1], sv[j1].bodies[k], kk as int, fuel as nat), kk as int),
            decreases sides.len() - j,
        {
            let side = &sides[j];
            assert(sv[j as int] == side@);
            let mut k: usize = 0;
            while k < side.bodies.len()
                invariant
                    i < conflicts.len(),
                    j < sides.len(),
                    side == sides@[j as int],
                    sides == conflicts@[i as int].sides,
                    sv == rules_view(sides@),
                    cv == conflicts_view(conflicts@),
                    cv[i as int].sides == sv,
                    j < sv.len(),
                    sv[j as int] == side@,
                    rv == rules_view(rules@),
                    fv == follows_view(follows@),
                    wf_rules(rv),
                    wf_rules(sv),
                    kk <= i32::MAX,
                    k <= side.bodies.len(),
                    forall|k1: int| 0 <= k1 < k ==>
                        cands_cuttable(#[trigger] raw_cands(rv, fv, sv[j as int], sv[j as int].bodies[k1], kk as int, fuel as nat), kk as int),
                decreases side.bodies.len() - k,
            {
                assert(sv[j as int].bodies[k as int] == side.bodies@[k as int]@);
                assert forall|q: int| 0 <= q < side@.bodies.len() implies wf_post(#[trigger] side@.bodies[q].post) by {
                    assert(wf_post(sv[j as int].bodies[q].post));
                }
                match raw_candidates(rules, follows, side, &side.bodies[k], kk, fuel) {
                    None => {},
                    Some(v) => {
                        let ok = all_cuttable(&v, kk);
                        if !ok {
                            proof {
                                let m = choose|m: int| 0 <= m < v@.len() && !cuttable(#[trigger] v@[m]@, kk as int);
                                assert(crate::slr::grammar::strs_view(v@)[m] == v@[m]@);
                                let raw = raw_cands(rv, fv, cv[i as int].sides[j as int], cv[i as int].sides[j as int].bodies[k as int], kk as int, fuel as nat);
                                assert(raw == Some(crate::slr::grammar::strs_view(v@)));
                                assert(!cands_cuttable(raw, kk as int));
                            }
                            return false;
                        }
                        proof {
                            assert forall|m: int| 0 <= m < v@.len() implies cuttable(#[trigger] crate::slr::grammar::strs_view(v@)[m], kk as int) by {
                                assert(crate::slr::grammar::strs_view(v@)[m] == v@[m]@);
                            }
                        }
                    },
                }
                k += 1;
            }
            j += 1;
        }
        i += 1;
    }
    true
}

} // verus!
