//! Properties of the grammar tools that hold for every input.
use vstd::prelude::*;
use crate::slr::grammar::{
    RuleV, BodyV, is_blank, kept_char, non_blank, append_rule_spec, parse_rules_spec, heads_distinct,
    head_index, lemma_head_index, parse_line, LineParse, fresh_bodies,
};
use crate::slr::conflicts::{
    ConflictV, resolve_one, pair_total, pair_row, pair_flag, same_set, meet, raw_cands, comp_bodies, comp_sides,
    resolve_spec, resolve_ok, cands_cuttable, complete_count, complete_items, get_conflicts_spec, split_rules,
    concat_cands, prefixed,
};
use crate::slr::automaton::StateV;
use crate::slr::grammar::close_from;
use crate::slr::lookahead::{
    Scan, scan, fk_loop, first_k_spec, expand_bodies, fol_scan, fol_bodies, fol_rules, fol_repeat, follow_k_spec,
    initial_follows, append_follow_spec, FollowV, filter_ok, filter_spec, add_missing, get_follows_spec,
};
use crate::slr::report::{AnalysisError, resolve_upto_spec, resolve_all_spec};

verus! {

proof fn lemma_filter_idem(s: Seq<char>, p: spec_fn(char) -> bool)
    ensures
        s.filter(p).filter(p) == s.filter(p),
        forall|i: int| 0 <= i < s.filter(p).len() ==> p(#[trigger] s.filter(p)[i]),
    decreases s.len(),
{
    reveal(Seq::filter);
    if s.len() > 0 {
        lemma_filter_idem(s.drop_last(), p);
        let sub = s.drop_last().filter(p);
        if p(s.last()) {
            sub.lemma_filter_push(s.last(), p);
            assert(s.filter(p) == sub.push(s.last()));
        }
    }
}

/// Removing blanks leaves no blank, and removing them again changes
/// nothing.
pub proof fn law_del_whitespaces_idempotent(s: Seq<char>)
    ensures
        non_blank(non_blank(s)) == non_blank(s),
        forall|i: int| 0 <= i < non_blank(s).len() ==> !is_blank(#[trigger] non_blank(s)[i]),
{
    lemma_filter_idem(s, kept_char());
}

/// Two lookahead sets hold the same strings whichever is named first.
pub proof fn law_equal_symmetric(a: Seq<Seq<char>>, b: Seq<Seq<char>>)
    ensures
        same_set(a, b) == same_set(b, a),
{
}

/// Two lookahead sets meet whichever is named first.
pub proof fn law_intersect_symmetric(a: Seq<Seq<char>>, b: Seq<Seq<char>>)
    ensures
        meet(a, b) == meet(b, a),
{
    if meet(a, b) {
        let (i, j) = choose|i: int, j: int| 0 <= i < a.len() && 0 <= j < b.len() && a[i] == b[j];
        assert(0 <= j < b.len() && 0 <= i < a.len() && b[j] == a[i]);
    }
    if meet(b, a) {
        let (i, j) = choose|i: int, j: int| 0 <= i < b.len() && 0 <= j < a.len() && b[i] == a[j];
        assert(0 <= j < a.len() && 0 <= i < b.len() && a[j] == b[i]);
    }
}

proof fn lemma_append_rule_distinct(rs: Seq<RuleV>, h: Seq<char>, bs: Seq<BodyV>)
    requires
        heads_distinct(rs),
    ensures
        heads_distinct(append_rule_spec(rs, h, bs)),
{
    lemma_head_index(rs, h);
    let out = append_rule_spec(rs, h, bs);
    if head_index(rs, h) < rs.len() {
        assert forall|a: int, b: int| 0 <= a < b < out.len() implies out[a].head != out[b].head by {
            assert(out[a].head == rs[a].head);
            assert(out[b].head == rs[b].head);
        }
    } else {
        assert forall|a: int, b: int| 0 <= a < b < out.len() implies out[a].head != out[b].head by {
            if b == rs.len() {
                assert(rs[a].head != h);
            } else {
                assert(out[a].head == rs[a].head);
                assert(out[b].head == rs[b].head);
            }
        }
    }
}

/// The rules read from a grammar have pairwise distinct heads: lines with
/// the same head are merged into one rule.
pub proof fn law_parse_rules_distinct_heads(lines: Seq<Seq<char>>)
    requires
        parse_rules_spec(lines) is Ok,
    ensures
        heads_distinct(parse_rules_spec(lines)->Ok_0),
    decreases lines.len(),
{
    if lines.len() > 0 {
        law_parse_rules_distinct_heads(lines.drop_last());
        let acc = parse_rules_spec(lines.drop_last())->Ok_0;
        match parse_line(lines.last()) {
            LineParse::Parsed(h, bs) => {
                lemma_append_rule_distinct(acc, h, fresh_bodies(bs));
            },
            _ => {},
        }
    }
}

/// No two of the lookahead sets meet.
pub open spec fn pairwise_disjoint(comp: Seq<Seq<Seq<char>>>) -> bool {
    forall|a: int, b: int| 0 <= a < b < comp.len() ==> !meet(#[trigger] comp[a], #[trigger] comp[b])
}

/// Every two of the lookahead sets hold the same strings.
pub open spec fn pairwise_equal(comp: Seq<Seq<Seq<char>>>) -> bool {
    forall|a: int, b: int| 0 <= a < b < comp.len() ==> same_set(#[trigger] comp[a], #[trigger] comp[b])
}

proof fn lemma_pair_row_zero(comp: Seq<Seq<Seq<char>>>, j: int, k: int, differ: bool)
    requires
        0 <= j < comp.len(),
        0 <= k,
    ensures
        pair_row(comp, j, k, differ) >= 0,
        (pair_row(comp, j, k, differ) == 0) == (forall|l: int| k <= l < comp.len() ==> !pair_flag(comp[j], #[trigger] comp[l], differ)),
    decreases comp.len() - k,
{
    if k < comp.len() {
        lemma_pair_row_zero(comp, j, k + 1, differ);
    }
}

proof fn lemma_pair_total_zero(comp: Seq<Seq<Seq<char>>>, j: int, differ: bool)
    requires
        0 <= j,
    ensures
        pair_total(comp, j, differ) >= 0,
        (pair_total(comp, j, differ) == 0) == (forall|a: int, b: int| j <= a < b < comp.len() ==> !pair_flag(#[trigger] comp[a], #[trigger] comp[b], differ)),
    decreases comp.len() - j,
{
    if j < comp.len() {
        lemma_pair_total_zero(comp, j + 1, differ);
        lemma_pair_row_zero(comp, j, j + 1, differ);
        if pair_total(comp, j, differ) == 0 {
            assert forall|a: int, b: int| j <= a < b < comp.len() implies !pair_flag(#[trigger] comp[a], #[trigger] comp[b], differ) by {
                if a == j {
                    assert(!pair_flag(comp[j], comp[b], differ));
                }
            }
        }
    }
}

/// A conflict is resolved at lookahead `kk` exactly when the lookahead sets
/// of its items are pairwise disjoint; it is then done, at the first `kk`
/// at which it was resolved.
pub proof fn law_resolved_iff_disjoint(c: ConflictV, comp: Seq<Seq<Seq<char>>>, kk: usize)
    ensures
        resolve_one(c, comp, kk).1 == pairwise_disjoint(comp),
        resolve_one(c, comp, kk).1 ==> resolve_one(c, comp, kk).0.done
            && resolve_one(c, comp, kk).0.resolved == if c.done { c.resolved } else { kk },
        resolve_one(c, comp, kk).0.sides == c.sides,
{
    lemma_pair_total_zero(comp, 0, false);
}

/// A conflict whose lookahead sets are not disjoint hangs at `kk` (its done
/// mark kept) exactly when all its sets are pairwise equal, whatever the
/// number of its items; otherwise it is unresolved.
pub proof fn law_hanging_iff_equal(c: ConflictV, comp: Seq<Seq<Seq<char>>>, kk: usize)
    requires
        !pairwise_disjoint(comp),
    ensures
        pairwise_equal(comp) ==> resolve_one(c, comp, kk).0.resolved == kk && resolve_one(c, comp, kk).0.done == c.done,
        !pairwise_equal(comp) ==> resolve_one(c, comp, kk).0.resolved == 0 && !resolve_one(c, comp, kk).0.done,
        !resolve_one(c, comp, kk).1,
{
    lemma_pair_total_zero(comp, 0, false);
    lemma_pair_total_zero(comp, 0, true);
    if pairwise_equal(comp) {
        assert forall|a: int, b: int| 0 <= a < b < comp.len() implies !pair_flag(#[trigger] comp[a], #[trigger] comp[b], true) by {
            assert(same_set(comp[a], comp[b]));
        }
    } else {
        let (a, b) = choose|a: int, b: int| 0 <= a < b < comp.len() && !same_set(#[trigger] comp[a], #[trigger] comp[b]);
        assert(pair_flag(comp[a], comp[b], true));
    }
}

proof fn lemma_fk_fuel(rules: Seq<RuleV>, head: Seq<char>, bodies: Seq<BodyV>, i: int, k: int, have1: int, cycle: int, out: Seq<Seq<char>>, fuel: nat, steps: nat, more: nat)
    requires
        fuel <= more,
        fk_loop(rules, head, bodies, i, k, have1, cycle, out, fuel, steps) is Some,
    ensures
        fk_loop(rules, head, bodies, i, k, have1, cycle, out, more, steps) == fk_loop(rules, head, bodies, i, k, have1, cycle, out, fuel, steps),
    decreases fuel, 0int, fuel - steps,
{
    if 0 <= i < bodies.len() && steps < fuel {
        let b = bodies[i];
        match scan(rules, head, b.post, 1, k, have1, 0, cycle, Seq::empty(), true) {
            Scan::Done(terminal, n_char, cycle2) => {
                let out2 = if terminal && !out.contains(n_char) { out.push(n_char) } else { out };
                lemma_fk_fuel(rules, head, bodies, i + 1, k, have1, cycle2, out2, fuel, steps + 1, more);
            },
            Scan::Expand(n_char, cycle2, nr, nxt, have) => {
                lemma_first_k_fuel(rules, nr, k, have, cycle2, (fuel - 1) as nat, (more - 1) as nat);
                let pref = first_k_spec(rules, nr, k, have, cycle2, (fuel - 1) as nat)->Some_0;
                let added = expand_bodies(pref, b.pre, n_char, b.post.subrange(nxt, b.post.len() as int));
                lemma_fk_fuel(rules, head, bodies + added, i + 1, k, have1, cycle2, out, fuel, steps + 1, more);
            },
            Scan::Overflow => {},
        }
    }
}

proof fn lemma_first_k_fuel(rules: Seq<RuleV>, rule: RuleV, k: int, have1: int, cycle: int, fuel: nat, more: nat)
    requires
        fuel <= more,
        first_k_spec(rules, rule, k, have1, cycle, fuel) is Some,
    ensures
        first_k_spec(rules, rule, k, have1, cycle, more) == first_k_spec(rules, rule, k, have1, cycle, fuel),
    decreases fuel, 1int, 0int,
{
    lemma_fk_fuel(rules, rule.head, rule.bodies, 0, k, have1, cycle, Seq::empty(), fuel, 0, more);
}

proof fn lemma_fol_scan_fuel(rules: Seq<RuleV>, head: Seq<char>, post: Seq<char>, ii: int, kk: int, out: Seq<FollowV>, fuel: nat, more: nat)
    requires
        fuel <= more,
        fol_scan(rules, head, post, ii, kk, out, fuel) is Some,
    ensures
        fol_scan(rules, head, post, ii, kk, out, more) == fol_scan(rules, head, post, ii, kk, out, fuel),
    decreases post.len() - ii,
{
    if !(ii < 1 || ii >= post.len() || post[ii] == '$') {
        if post[ii] == '[' {
            let c = close_from(post, ii + 1);
            let nxt = c + 1;
            if !(nxt <= ii || nxt > post.len()) {
                let nn = RuleV { head, bodies: seq![BodyV { pre: Seq::empty(), post: seq!['.'] + post.subrange(nxt, post.len() as int) }] };
                lemma_first_k_fuel(rules, nn, kk, 0, 0, fuel, more);
                let f = first_k_spec(rules, nn, kk, 0, 0, fuel)->Some_0;
                lemma_fol_scan_fuel(rules, head, post, nxt, kk, append_follow_spec(post.subrange(ii + 1, c), f, out), fuel, more);
            }
        } else {
            lemma_fol_scan_fuel(rules, head, post, ii + 1, kk, out, fuel, more);
        }
    }
}

proof fn lemma_fol_bodies_fuel(rules: Seq<RuleV>, head: Seq<char>, bs: Seq<BodyV>, kk: int, out: Seq<FollowV>, fuel: nat, more: nat)
    requires
        fuel <= more,
        fol_bodies(rules, head, bs, kk, out, fuel) is Some,
    ensures
        fol_bodies(rules, head, bs, kk, out, more) == fol_bodies(rules, head, bs, kk, out, fuel),
    decreases bs.len(),
{
    if bs.len() > 0 {
        lemma_fol_bodies_fuel(rules, head, bs.drop_last(), kk, out, fuel, more);
        let o = fol_bodies(rules, head, bs.drop_last(), kk, out, fuel)->Some_0;
        lemma_fol_scan_fuel(rules, head, bs.last().post, 1, kk, o, fuel, more);
    }
}

proof fn lemma_fol_rules_fuel(rules: Seq<RuleV>, rs: Seq<RuleV>, kk: int, out: Seq<FollowV>, fuel: nat, more: nat)
    requires
        fuel <= more,
        fol_rules(rules, rs, kk, out, fuel) is Some,
    ensures
        fol_rules(rules, rs, kk, out, more) == fol_rules(rules, rs, kk, out, fuel),
    decreases rs.len(),
{
    if rs.len() > 0 {
        lemma_fol_rules_fuel(rules, rs.drop_last(), kk, out, fuel, more);
        let o = fol_rules(rules, rs.drop_last(), kk, out, fuel)->Some_0;
        lemma_fol_bodies_fuel(rules, rs.last().head, rs.last().bodies, kk, o, fuel, more);
    }
}

proof fn lemma_fol_repeat_fuel(rules: Seq<RuleV>, n: nat, kk: int, out: Seq<FollowV>, fuel: nat, more: nat)
    requires
        fuel <= more,
        fol_repeat(rules, n, kk, out, fuel) is Some,
    ensures
        fol_repeat(rules, n, kk, out, more) == fol_repeat(rules, n, kk, out, fuel),
    decreases n,
{
    if n > 0 {
        lemma_fol_repeat_fuel(rules, (n - 1) as nat, kk, out, fuel, more);
        let o = fol_repeat(rules, (n - 1) as nat, kk, out, fuel)->Some_0;
        lemma_fol_rules_fuel(rules, rules, kk, o, fuel, more);
    }
}

/// More fuel never changes FIRST_k or FOLLOW_k sets that were computed.
pub proof fn law_lookahead_fuel(rules: Seq<RuleV>, rule: RuleV, kk: int, fuel: nat, more: nat)
    requires
        fuel <= more,
    ensures
        first_k_spec(rules, rule, kk, 0, 0, fuel) is Some
            ==> first_k_spec(rules, rule, kk, 0, 0, more) == first_k_spec(rules, rule, kk, 0, 0, fuel),
        follow_k_spec(rules, kk, fuel) is Some ==> follow_k_spec(rules, kk, more) == follow_k_spec(rules, kk, fuel),
{
    if first_k_spec(rules, rule, kk, 0, 0, fuel) is Some {
        lemma_first_k_fuel(rules, rule, kk, 0, 0, fuel, more);
    }
    if follow_k_spec(rules, kk, fuel) is Some {
        lemma_fol_repeat_fuel(rules, rules.len(), kk, initial_follows(), fuel, more);
    }
}

proof fn lemma_raw_cands_fuel(rules: Seq<RuleV>, follows: Seq<FollowV>, side: RuleV, b: BodyV, kk: int, fuel: nat, more: nat)
    requires
        fuel <= more,
        raw_cands(rules, follows, side, b, kk, fuel) is Some,
    ensures
        raw_cands(rules, follows, side, b, kk, more) == raw_cands(rules, follows, side, b, kk, fuel),
{
    if b.post[1] != '$' {
        lemma_first_k_fuel(rules, side, kk, 0, 0, fuel, more);
    }
}

proof fn lemma_comp_bodies_fuel(rules: Seq<RuleV>, follows: Seq<FollowV>, side: RuleV, bs: Seq<BodyV>, kk: int, fuel: nat, more: nat, acc: Seq<Seq<Seq<char>>>)
    requires
        fuel <= more,
        comp_bodies(rules, follows, side, bs, kk, fuel, acc) is Some,
    ensures
        comp_bodies(rules, follows, side, bs, kk, more, acc) == comp_bodies(rules, follows, side, bs, kk, fuel, acc),
        forall|m: int| 0 <= m < bs.len() ==> (#[trigger] raw_cands(rules, follows, side, bs[m], kk, fuel)) is Some,
    decreases bs.len(),
{
    if bs.len() > 0 {
        lemma_comp_bodies_fuel(rules, follows, side, bs.drop_last(), kk, fuel, more, acc);
        lemma_raw_cands_fuel(rules, follows, side, bs.last(), kk, fuel, more);
        assert forall|m: int| 0 <= m < bs.len() implies (#[trigger] raw_cands(rules, follows, side, bs[m], kk, fuel)) is Some by {
            if m < bs.len() - 1 {
                assert(bs[m] == bs.drop_last()[m]);
            }
        }
    }
}

proof fn lemma_comp_sides_fuel(rules: Seq<RuleV>, follows: Seq<FollowV>, sides: Seq<RuleV>, kk: int, fuel: nat, more: nat)
    requires
        fuel <= more,
        comp_sides(rules, follows, sides, kk, fuel) is Some,
    ensures
        comp_sides(rules, follows, sides, kk, more) == comp_sides(rules, follows, sides, kk, fuel),
        forall|j: int, m: int| 0 <= j < sides.len() && 0 <= m < sides[j].bodies.len()
            ==> (#[trigger] raw_cands(rules, follows, sides[j], sides[j].bodies[m], kk, fuel)) is Some,
    decreases sides.len(),
{
    if sides.len() > 0 {
        lemma_comp_sides_fuel(rules, follows, sides.drop_last(), kk, fuel, more);
        let a = comp_sides(rules, follows, sides.drop_last(), kk, fuel)->Some_0;
        lemma_comp_bodies_fuel(rules, follows, sides.last(), sides.last().bodies, kk, fuel, more, a);
        assert forall|j: int, m: int| 0 <= j < sides.len() && 0 <= m < sides[j].bodies.len()
            implies (#[trigger] raw_cands(rules, follows, sides[j], sides[j].bodies[m], kk, fuel)) is Some by {
            if j < sides.len() - 1 {
                assert(sides[j] == sides.drop_last()[j]);
            }
        }
    }
}

proof fn lemma_resolve_fuel(rules: Seq<RuleV>, follows: Seq<FollowV>, cs: Seq<ConflictV>, kk: usize, fuel: nat, more: nat)
    requires
        fuel <= more,
        resolve_spec(rules, follows, cs, kk, fuel) is Some,
    ensures
        resolve_spec(rules, follows, cs, kk, more) == resolve_spec(rules, follows, cs, kk, fuel),
        forall|i: int, j: int, m: int| 0 <= i < cs.len() && 0 <= j < cs[i].sides.len() && 0 <= m < cs[i].sides[j].bodies.len()
            ==> (#[trigger] raw_cands(rules, follows, cs[i].sides[j], cs[i].sides[j].bodies[m], kk as int, fuel)) is Some,
    decreases cs.len(),
{
    if cs.len() > 0 {
        lemma_resolve_fuel(rules, follows, cs.drop_last(), kk, fuel, more);
        lemma_comp_sides_fuel(rules, follows, cs.last().sides, kk as int, fuel, more);
        assert forall|i: int, j: int, m: int| 0 <= i < cs.len() && 0 <= j < cs[i].sides.len() && 0 <= m < cs[i].sides[j].bodies.len()
            implies (#[trigger] raw_cands(rules, follows, cs[i].sides[j], cs[i].sides[j].bodies[m], kk as int, fuel)) is Some by {
            if i < cs.len() - 1 {
                assert(cs[i] == cs.drop_last()[i]);
            }
        }
    }
}

proof fn lemma_resolve_ok_fuel(rules: Seq<RuleV>, follows: Seq<FollowV>, cs: Seq<ConflictV>, kk: int, fuel: nat, more: nat)
    requires
        fuel <= more,
    ensures
        !resolve_ok(rules, follows, cs, kk, fuel) ==> !resolve_ok(rules, follows, cs, kk, more),
        (forall|i: int, j: int, m: int| 0 <= i < cs.len() && 0 <= j < cs[i].sides.len() && 0 <= m < cs[i].sides[j].bodies.len()
            ==> (#[trigger] raw_cands(rules, follows, cs[i].sides[j], cs[i].sides[j].bodies[m], kk, fuel)) is Some)
            ==> resolve_ok(rules, follows, cs, kk, more) == resolve_ok(rules, follows, cs, kk, fuel),
{
    assert forall|i: int, j: int, m: int| 0 <= i < cs.len() && 0 <= j < cs[i].sides.len() && 0 <= m < cs[i].sides[j].bodies.len()
        && (#[trigger] raw_cands(rules, follows, cs[i].sides[j], cs[i].sides[j].bodies[m], kk, fuel)) is Some
        implies raw_cands(rules, follows, cs[i].sides[j], cs[i].sides[j].bodies[m], kk, more)
            == raw_cands(rules, follows, cs[i].sides[j], cs[i].sides[j].bodies[m], kk, fuel) by {
        lemma_raw_cands_fuel(rules, follows, cs[i].sides[j], cs[i].sides[j].bodies[m], kk, fuel, more);
    }
    if forall|i: int, j: int, m: int| 0 <= i < cs.len() && 0 <= j < cs[i].sides.len() && 0 <= m < cs[i].sides[j].bodies.len()
        ==> (#[trigger] raw_cands(rules, follows, cs[i].sides[j], cs[i].sides[j].bodies[m], kk, fuel)) is Some {
        assert forall|i: int, j: int, m: int| 0 <= i < cs.len() && 0 <= j < cs[i].sides.len() && 0 <= m < cs[i].sides[j].bodies.len()
            implies cands_cuttable(#[trigger] raw_cands(rules, follows, cs[i].sides[j], cs[i].sides[j].bodies[m], kk, more), kk)
                == cands_cuttable(raw_cands(rules, follows, cs[i].sides[j], cs[i].sides[j].bodies[m], kk, fuel), kk) by {
            assert(raw_cands(rules, follows, cs[i].sides[j], cs[i].sides[j].bodies[m], kk, fuel) is Some);
        }
        if resolve_ok(rules, follows, cs, kk, fuel) {
            assert forall|i: int, j: int, m: int| 0 <= i < cs.len() && 0 <= j < cs[i].sides.len() && 0 <= m < cs[i].sides[j].bodies.len()
                implies cands_cuttable(#[trigger] raw_cands(rules, follows, cs[i].sides[j], cs[i].sides[j].bodies[m], kk, more), kk) by {
                assert(cands_cuttable(raw_cands(rules, follows, cs[i].sides[j], cs[i].sides[j].bodies[m], kk, fuel), kk));
            }
        }
    }
}

proof fn lemma_upto_fuel(rules: Seq<RuleV>, cs: Seq<ConflictV>, i: int, k: int, fuel: nat, more: nat)
    requires
        fuel <= more,
        k < i32::MAX,
        resolve_upto_spec(rules, cs, i, k, fuel) != Err::<Seq<ConflictV>, AnalysisError>(AnalysisError::OutOfFuel),
    ensures
        resolve_upto_spec(rules, cs, i, k, more) == resolve_upto_spec(rules, cs, i, k, fuel),
    decreases k - i + 1,
{
    if 1 <= i <= k {
        law_lookahead_fuel(rules, RuleV { head: Seq::empty(), bodies: Seq::empty() }, i, fuel, more);
        let f = follow_k_spec(rules, i, fuel)->Some_0;
        if filter_ok(f, i) {
            let ff = filter_spec(f, i);
            lemma_resolve_ok_fuel(rules, ff, cs, i, fuel, more);
            if resolve_ok(rules, ff, cs, i, fuel) {
                lemma_resolve_fuel(rules, ff, cs, i as usize, fuel, more);
                let (cs2, ok) = resolve_spec(rules, ff, cs, i as usize, fuel)->Some_0;
                if !ok {
                    lemma_upto_fuel(rules, cs2, i + 1, k, fuel, more);
                }
            }
        }
    }
}

/// More fuel never changes the outcome of checking the conflicts when it
/// did not run out.
pub proof fn law_resolve_all_fuel(rules: Seq<RuleV>, cs: Seq<ConflictV>, k: int, fuel: nat, more: nat)
    requires
        fuel <= more,
        resolve_all_spec(rules, cs, k, fuel) != Err::<Seq<ConflictV>, AnalysisError>(AnalysisError::OutOfFuel),
    ensures
        resolve_all_spec(rules, cs, k, more) == resolve_all_spec(rules, cs, k, fuel),
{
    if k < i32::MAX {
        lemma_upto_fuel(rules, cs, 1, k, fuel, more);
    }
}

/// Some kernel item of the rules `rs`, in any of them, is complete: its dot
/// stands before the end marker.
pub open spec fn has_complete_item(rs: Seq<RuleV>) -> bool {
    exists|i: int, k: int| #![trigger rs[i].bodies[k]] 0 <= i < rs.len() && 0 <= k < rs[i].bodies.len()
        && rs[i].bodies[k].post[1] == '$'
}

proof fn lemma_complete_count_pos(bs: Seq<BodyV>)
    ensures
        (complete_count(bs) > 0) == (exists|k: int| 0 <= k < bs.len() && (#[trigger] bs[k]).post[1] == '$'),
    decreases bs.len(),
{
    if bs.len() > 0 {
        let init = bs.drop_last();
        lemma_complete_count_pos(init);
        if exists|k: int| 0 <= k < init.len() && (#[trigger] init[k]).post[1] == '$' {
            let k = choose|k: int| 0 <= k < init.len() && (#[trigger] init[k]).post[1] == '$';
            assert(bs[k] == init[k]);
        }
        if exists|k: int| 0 <= k < bs.len() && (#[trigger] bs[k]).post[1] == '$' {
            let k = choose|k: int| 0 <= k < bs.len() && (#[trigger] bs[k]).post[1] == '$';
            if k < init.len() {
                assert(init[k] == bs[k]);
            }
        }
    }
}

proof fn lemma_complete_items_pos(rs: Seq<RuleV>)
    ensures
        (complete_items(rs) > 0) == has_complete_item(rs),
    decreases rs.len(),
{
    if rs.len() > 0 {
        let init = rs.drop_last();
        lemma_complete_items_pos(init);
        lemma_complete_count_pos(rs.last().bodies);
        if has_complete_item(init) {
            let (i, k) = choose|i: int, k: int| #![trigger init[i].bodies[k]] 0 <= i < init.len() && 0 <= k < init[i].bodies.len()
                && init[i].bodies[k].post[1] == '$';
            assert(rs[i] == init[i]);
            assert(rs[i].bodies[k].post[1] == '$');
        }
        if exists|k: int| 0 <= k < rs.last().bodies.len() && (#[trigger] rs.last().bodies[k]).post[1] == '$' {
            let k = choose|k: int| 0 <= k < rs.last().bodies.len() && (#[trigger] rs.last().bodies[k]).post[1] == '$';
            assert(rs[rs.len() - 1].bodies[k].post[1] == '$');
        }
        if has_complete_item(rs) {
            let (i, k) = choose|i: int, k: int| #![trigger rs[i].bodies[k]] 0 <= i < rs.len() && 0 <= k < rs[i].bodies.len()
                && rs[i].bodies[k].post[1] == '$';
            if i < init.len() {
                assert(init[i] == rs[i]);
                assert(init[i].bodies[k].post[1] == '$');
            } else {
                assert(rs.last().bodies[k].post[1] == '$');
            }
        }
    }
}

/// The conflicts of the automaton grow state by state: a state adds exactly
/// one conflict, between all its kernel items, when its kernel has more
/// than one item and some kernel item of any of its kernel rules is
/// complete; any other state adds none.
pub proof fn law_one_conflict_per_state(sts: Seq<StateV>, st: StateV)
    requires
        st.roots.len() > 0,
    ensures
        get_conflicts_spec(sts.push(st)) == get_conflicts_spec(sts) + if (st.roots.len() > 1 || st.roots[0].bodies.len() > 1)
            && has_complete_item(st.roots) {
            seq![ConflictV { sides: split_rules(st.roots), resolved: 0, done: false }]
        } else {
            Seq::<ConflictV>::empty()
        },
{
    lemma_complete_items_pos(st.roots);
    assert(sts.push(st).drop_last() =~= sts);
}

proof fn lemma_push_contains(s: Seq<Seq<char>>, y: Seq<char>, x: Seq<char>)
    ensures
        s.push(y).contains(x) == (s.contains(x) || x == y),
{
    if s.contains(x) {
        let w = choose|w: int| 0 <= w < s.len() && s[w] == x;
        assert(s.push(y)[w] == x);
    }
    if x == y {
        assert(s.push(y)[s.len() as int] == y);
    }
    if s.push(y).contains(x) {
        let w = choose|w: int| 0 <= w < s.push(y).len() && s.push(y)[w] == x;
        if w < s.len() {
            assert(s[w] == x);
        }
    }
}

/// Adding the missing strings of `new` to `bs` gives the strings of both.
proof fn lemma_add_missing_contains(bs: Seq<Seq<char>>, new: Seq<Seq<char>>)
    ensures
        forall|x: Seq<char>| #[trigger] add_missing(bs, new).contains(x) == (bs.contains(x) || new.contains(x)),
    decreases new.len(),
{
    if new.len() > 0 {
        let init = new.drop_last();
        lemma_add_missing_contains(bs, init);
        let a = add_missing(bs, init);
        assert(add_missing(bs, new) == if a.contains(new.last()) { a } else { a.push(new.last()) });
        assert forall|x: Seq<char>| #[trigger] add_missing(bs, new).contains(x) == (bs.contains(x) || new.contains(x)) by {
            lemma_push_contains(init, new.last(), x);
            assert(init.push(new.last()) =~= new);
            lemma_push_contains(a, new.last(), x);
        }
    }
}

/// A string joined from a string of `firsts` and one of `fff`.
pub open spec fn joined_from(x: Seq<char>, firsts: Seq<Seq<char>>, fff: Seq<Seq<char>>) -> bool {
    exists|i: int, j: int| 0 <= i < firsts.len() && 0 <= j < fff.len() && x == #[trigger] firsts[i] + #[trigger] fff[j]
}

proof fn lemma_concat_cands_contains(firsts: Seq<Seq<char>>, fff: Seq<Seq<char>>)
    ensures
        forall|x: Seq<char>| #[trigger] concat_cands(Seq::empty(), firsts, fff).contains(x) == joined_from(x, firsts, fff),
    decreases firsts.len(),
{
    if firsts.len() > 0 {
        let init = firsts.drop_last();
        let p = firsts.last();
        lemma_concat_cands_contains(init, fff);
        lemma_add_missing_contains(concat_cands(Seq::empty(), init, fff), prefixed(p, fff));
        assert forall|x: Seq<char>| #[trigger] concat_cands(Seq::empty(), firsts, fff).contains(x) == joined_from(x, firsts, fff) by {
            if joined_from(x, firsts, fff) {
                let (i, j) = choose|i: int, j: int| 0 <= i < firsts.len() && 0 <= j < fff.len() && x == #[trigger] firsts[i] + #[trigger] fff[j];
                if i < init.len() {
                    assert(init[i] == firsts[i]);
                    assert(x == init[i] + fff[j]);
                    assert(joined_from(x, init, fff));
                } else {
                    assert(prefixed(p, fff)[j] == x);
                    assert(prefixed(p, fff).contains(x));
                }
            }
            if joined_from(x, init, fff) {
                let (i, j) = choose|i: int, j: int| 0 <= i < init.len() && 0 <= j < fff.len() && x == #[trigger] init[i] + #[trigger] fff[j];
                assert(firsts[i] == init[i]);
                assert(x == firsts[i] + fff[j]);
            }
            if prefixed(p, fff).contains(x) {
                let j = choose|j: int| 0 <= j < prefixed(p, fff).len() && prefixed(p, fff)[j] == x;
                assert(firsts[firsts.len() - 1] == p);
                assert(x == firsts[firsts.len() - 1] + fff[j]);
            }
        }
    }
}

/// The lookahead candidates of a conflict item: for an item that is not
/// complete, exactly the strings made of a FIRST_k string of the item
/// followed by a string of the FOLLOW_k set of its head; for a complete
/// item, exactly the strings of that FOLLOW_k set.
pub proof fn law_candidates(rules: Seq<RuleV>, follows: Seq<FollowV>, side: RuleV, b: BodyV, kk: int, fuel: nat)
    ensures
        b.post[1] != '$' ==> (raw_cands(rules, follows, side, b, kk, fuel) is Some
            <==> first_k_spec(rules, side, kk, 0, 0, fuel) is Some),
        b.post[1] != '$' && raw_cands(rules, follows, side, b, kk, fuel) is Some ==> forall|x: Seq<char>|
            #[trigger] raw_cands(rules, follows, side, b, kk, fuel)->Some_0.contains(x)
                == joined_from(x, first_k_spec(rules, side, kk, 0, 0, fuel)->Some_0, get_follows_spec(follows, side.head)),
        b.post[1] == '$' ==> raw_cands(rules, follows, side, b, kk, fuel) is Some && forall|x: Seq<char>|
            #[trigger] raw_cands(rules, follows, side, b, kk, fuel)->Some_0.contains(x)
                == get_follows_spec(follows, side.head).contains(x),
{
    let fff = get_follows_spec(follows, side.head);
    if b.post[1] == '$' {
        lemma_add_missing_contains(Seq::empty(), fff);
    } else if let Some(f) = first_k_spec(rules, side, kk, 0, 0, fuel) {
        lemma_concat_cands_contains(f, fff);
    }
}

} // verus!
