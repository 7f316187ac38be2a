//! Reduce conflicts of the LR(0) automaton and their resolution by
//! lookahead: a conflict is resolved at `k` when the lookahead sets of its
//! items are pairwise disjoint, hanging when they are pairwise equal, and
//! unresolved otherwise.
use vstd::prelude::*;
use crate::slr::grammar::{BodyV, Rule, RuleV, Rule_body, bodies_view, clone_rules, clone_strs, inside, rules_view, strs_view};
use crate::slr::report::{conflicts_wf, lemma_conflicts_wf};
use crate::slr::automaton::{State, StateV, states_view, wf_post, wf_rules, states_wf};
use crate::slr::lookahead::{
    FOLLOW, FollowV, add_missing, clone_follows, cuttable, filter_strs, filter_strs_spec, first_k, first_k_spec,
    follows_view, get_follows, get_follows_spec, plain,
};
use crate::text::{char_at, push_str};

verus! {

/// A state with several items, at least one of which is complete (its dot
/// before `$`): the state may reduce or shift.
pub struct Conflict {
    /// The items of the state, one alternative per rule.
    pub sides: Vec<Rule>,
    /// The lookahead at which it was resolved or found hanging (0: neither).
    pub resolved: usize,
    /// Whether it is resolved.
    pub done: bool,
}

#[verifier::ext_equal]
pub struct ConflictV {
    pub sides: Seq<RuleV>,
    pub resolved: usize,
    pub done: bool,
}

impl View for Conflict {
    type V = ConflictV;

    open spec fn view(&self) -> ConflictV {
        ConflictV { sides: rules_view(self.sides@), resolved: self.resolved, done: self.done }
    }
}

pub open spec fn conflicts_view(cs: Seq<Conflict>) -> Seq<ConflictV> {
    cs.map_values(|c: Conflict| c@)
}

impl Clone for Conflict {
    fn clone(&self) -> (res: Self)
        ensures
            res@ == self@,
    {
        Conflict { sides: clone_rules(&self.sides), resolved: self.resolved, done: self.done }
    }
}

/// Each alternative of each rule as a rule of its own.
pub open spec fn split_rules(rs: Seq<RuleV>) -> Seq<RuleV>
    decreases rs.len(),
{
    if rs.len() == 0 {
        Seq::empty()
    } else {
        let r = rs.last();
        split_rules(rs.drop_last()) + r.bodies.map_values(|b: BodyV| RuleV { head: r.head, bodies: seq![b] })
    }
}

/// The kernel items of a state, one alternative per rule.
pub fn collect_roots(state: State) -> (res: Vec<Rule>)
    ensures
        rules_view(res@) == split_rules(state@.roots),
{
    let ghost rs = state@.roots;
    let mut roots: Vec<Rule> = Vec::new();
    assert(rules_view(roots@) =~= split_rules(rs.take(0)));
    let mut i: usize = 0;
    while i < state.roots.len()
        invariant
            rs == state@.roots,
            i <= state.roots.len(),
            rules_view(roots@) == split_rules(rs.take(i as int)),
        decreases state.roots.len() - i,
    {
        let ghost r = rs[i as int];
        assert(r == state.roots@[i as int]@);
        let ghost base = rules_view(roots@);
        let mut j: usize = 0;
        while j < state.roots[i].bodies.len()
            invariant
                rs == state@.roots,
                i < state.roots.len(),
                r == state.roots@[i as int]@,
                j <= r.bodies.len(),
                rules_view(roots@) == base + r.bodies.take(j as int).map_values(|b: BodyV| RuleV { head: r.head, bodies: seq![b] }),
            decreases r.bodies.len() - j,
        {
            let ghost prev = rules_view(roots@);
            let b = state.roots[i].bodies[j].clone();
            assert(r.bodies[j as int] == b@);
            let nr = Rule { head: state.roots[i].head.clone(), bodies: vec![b] };
            assert(nr@.bodies =~= seq![r.bodies[j as int]]);
            roots.push(nr);
            assert(rules_view(roots@) =~= prev.push(RuleV { head: r.head, bodies: seq![r.bodies[j as int]] }));
            assert(r.bodies.take(j + 1).map_values(|b: BodyV| RuleV { head: r.head, bodies: seq![b] })
                =~= r.bodies.take(j as int).map_values(|b: BodyV| RuleV { head: r.head, bodies: seq![b] }).push(RuleV { head: r.head, bodies: seq![r.bodies[j as int]] }));
            j += 1;
        }
        assert(r.bodies.take(j as int) =~= r.bodies);
        assert(rs.take(i + 1).drop_last() =~= rs.take(i as int));
        assert(rs.take(i + 1).last() == r);
        i += 1;
    }
    assert(rs.take(i as int) =~= rs);
    roots
}

/// The number of complete items (dot before `$`) among `bs`.
pub open spec fn complete_count(bs: Seq<BodyV>) -> nat
    decreases bs.len(),
{
    if bs.len() == 0 {
        0
    } else {
        complete_count(bs.drop_last()) + if bs.last().post[1] == '$' { 1nat } else { 0nat }
    }
}

/// The number of complete kernel items of the rules `rs`.
pub open spec fn complete_items(rs: Seq<RuleV>) -> nat
    decreases rs.len(),
{
    if rs.len() == 0 {
        0
    } else {
        complete_items(rs.drop_last()) + complete_count(rs.last().bodies)
    }
}

/// The conflict reported for one state: a state whose kernel has more than
/// one item, one of them complete, is one conflict between all its kernel
/// items.
pub open spec fn state_conflicts(st: StateV) -> Seq<ConflictV> {
    if (st.roots.len() > 1 || st.roots[0].bodies.len() > 1) && complete_items(st.roots) > 0 {
        seq![ConflictV { sides: split_rules(st.roots), resolved: 0, done: false }]
    } else {
        Seq::empty()
    }
}

pub open spec fn get_conflicts_spec(sts: Seq<StateV>) -> Seq<ConflictV>
    decreases sts.len(),
{
    if sts.len() == 0 {
        Seq::empty()
    } else {
        get_conflicts_spec(sts.drop_last()) + state_conflicts(sts.last())
    }
}

/// Every state has a kernel item.
pub open spec fn states_nonempty(sts: Seq<StateV>) -> bool {
    forall|i: int| 0 <= i < sts.len() ==> (#[trigger] sts[i]).roots.len() > 0
}

/// The reduce conflicts of the automaton, one per conflicting state (see
/// [`state_conflicts`]).
pub fn get_conflicts(states: Vec<State>) -> (res: Vec<Conflict>)
    requires
        states_wf(states_view(states@)),
        states_nonempty(states_view(states@)),
    ensures
        conflicts_view(res@) == get_conflicts_spec(states_view(states@)),
        conflicts_wf(conflicts_view(res@)),
{
    let ghost sv = states_view(states@);
    proof {
        lemma_conflicts_wf(sv);
    }
    let mut conflicts: Vec<Conflict> = Vec::new();
    assert(conflicts_view(conflicts@) =~= get_conflicts_spec(sv.take(0)));
    let mut i: usize = 0;
    while i < states.len()
        invariant
            sv == states_view(states@),
            states_wf(sv),
            states_nonempty(sv),
            i <= states.len(),
            conflicts_view(conflicts@) == get_conflicts_spec(sv.take(i as int)),
        decreases states.len() - i,
    {
        let ghost st = sv[i as int];
        assert(st == states@[i as int]@);
        assert(st.roots.len() > 0);
        let ghost base = conflicts_view(conflicts@);
        assert(sv.take(i + 1).drop_last() =~= sv.take(i as int));
        assert(sv.take(i + 1).last() == st);
        assert(st.roots[0] == states@[i as int].roots@[0]@);
        if states[i].roots.len() > 1 || states[i].roots[0].bodies.len() > 1 {
            let ghost rs = st.roots;
            let mut found = false;
            let mut j: usize = 0;
            while j < states[i].roots.len()
                invariant
                    sv == states_view(states@),
                    states_wf(sv),
                    i < states.len(),
                    st == sv[i as int],
                    rs == st.roots,
                    j <= rs.len(),
                    found == (complete_items(rs.take(j as int)) > 0),
                decreases rs.len() - j,
            {
                let ghost r = rs[j as int];
                assert(r == states@[i as int].roots@[j as int]@);
                let ghost before = complete_items(rs.take(j as int));
                let mut k: usize = 0;
                while k < states[i].roots[j].bodies.len()
                    invariant
                        sv == states_view(states@),
                        states_wf(sv),
                        i < states.len(),
                        st == sv[i as int],
                        rs == st.roots,
                        j < rs.len(),
                        r == rs[j as int],
                        r == states@[i as int].roots@[j as int]@,
                        k <= r.bodies.len(),
                        found == (before + complete_count(r.bodies.take(k as int)) > 0),
                    decreases r.bodies.len() - k,
                {
                    let post = &states[i].roots[j].bodies[k].post;
                    assert(r.bodies[k as int].post == post@);
                    assert(wf_rules(sv[i as int].roots));
                    assert(wf_post(rs[j as int].bodies[k as int].post));
                    assert(r.bodies.take(k + 1).drop_last() =~= r.bodies.take(k as int));
                    assert(r.bodies.take(k + 1).last() == r.bodies[k as int]);
                    if char_at(post, 1) == '$' {
                        found = true;
                    }
                    k += 1;
                }
                assert(r.bodies.take(k as int) =~= r.bodies);
                assert(rs.take(j + 1).drop_last() =~= rs.take(j as int));
                assert(rs.take(j + 1).last() == r);
                j += 1;
            }
            assert(rs.take(j as int) =~= rs);
            if found {
                let ghost prev = conflicts_view(conflicts@);
                let sides = collect_roots(states[i].clone());
                conflicts.push(Conflict { sides, resolved: 0, done: false });
                assert(conflicts_view(conflicts@) =~= base + state_conflicts(st));
            } else {
                assert(state_conflicts(st) =~= Seq::<ConflictV>::empty());
                assert(conflicts_view(conflicts@) =~= base + state_conflicts(st));
            }
        } else {
            assert(state_conflicts(st) =~= Seq::<ConflictV>::empty());
            assert(conflicts_view(conflicts@) =~= base + state_conflicts(st));
        }
        i += 1;
    }
    assert(sv.take(i as int) =~= sv);
    conflicts
}

/// Every string of one list is in the other, both ways.
pub open spec fn same_set(f1: Seq<Seq<char>>, f2: Seq<Seq<char>>) -> bool {
    (forall|i: int| 0 <= i < f1.len() ==> f2.contains(#[trigger] f1[i]))
        && (forall|i: int| 0 <= i < f2.len() ==> f1.contains(#[trigger] f2[i]))
}

/// Some string is in both lists.
pub open spec fn meet(f1: Seq<Seq<char>>, f2: Seq<Seq<char>>) -> bool {
    exists|i: int, j: int| 0 <= i < f1.len() && 0 <= j < f2.len() && f1[i] == f2[j]
}

/// 1 when the two lists hold the same strings, 0 otherwise.
pub fn equal(f1: Vec<String>, f2: Vec<String>) -> (res: usize)
    ensures
        res == if same_set(strs_view(f1@), strs_view(f2@)) { 1usize } else { 0usize },
{
    let ghost a = strs_view(f1@);
    let ghost b = strs_view(f2@);
    let mut i: usize = 0;
    while i < f1.len()
        invariant
            a == strs_view(f1@),
            b == strs_view(f2@),
            i <= f1.len(),
            forall|m: int| 0 <= m < i ==> b.contains(#[trigger] a[m]),
        decreases f1.len() - i,
    {
        let mut danger = true;
        let mut j: usize = 0;
        while j < f2.len()
            invariant
                a == strs_view(f1@),
                b == strs_view(f2@),
                i < f1.len(),
                j <= f2.len(),
                danger == forall|q: int| 0 <= q < j ==> b[q] != a[i as int],
            decreases f2.len() - j,
        {
            assert(a[i as int] == f1@[i as int]@ && b[j as int] == f2@[j as int]@);
            if f1[i] == f2[j] {
                danger = false;
            }
            j += 1;
        }
        if danger {
            assert(!b.contains(a[i as int]));
            return 0;
        }
        assert(b.contains(a[i as int])) by {
            let q = choose|q: int| 0 <= q < f2.len() && b[q] == a[i as int];
        }
        i += 1;
    }
    let mut i: usize = 0;
    while i < f2.len()
        invariant
            a == strs_view(f1@),
            b == strs_view(f2@),
            forall|m: int| 0 <= m < a.len() ==> b.contains(#[trigger] a[m]),
            i <= f2.len(),
            forall|m: int| 0 <= m < i ==> a.contains(#[trigger] b[m]),
        decreases f2.len() - i,
    {
        let mut danger = true;
        let mut j: usize = 0;
        while j < f1.len()
            invariant
                a == strs_view(f1@),
                b == strs_view(f2@),
                i < f2.len(),
                j <= f1.len(),
                danger == forall|q: int| 0 <= q < j ==> a[q] != b[i as int],
            decreases f1.len() - j,
        {
            assert(a[j as int] == f1@[j as int]@ && b[i as int] == f2@[i as int]@);
            if f1[j] == f2[i] {
                danger = false;
            }
            j += 1;
        }
        if danger {
            assert(!a.contains(b[i as int]));
            return 0;
        }
        assert(a.contains(b[i as int])) by {
            let q = choose|q: int| 0 <= q < f1.len() && a[q] == b[i as int];
        }
        i += 1;
    }
    1
}

/// 1 when the two lists share a string, 0 otherwise.
pub fn intersect(f1: Vec<String>, f2: Vec<String>) -> (res: usize)
    ensures
        res == if meet(strs_view(f1@), strs_view(f2@)) { 1usize } else { 0usize },
{
    let ghost a = strs_view(f1@);
    let ghost b = strs_view(f2@);
    let mut i: usize = 0;
    while i < f1.len()
        invariant
            a == strs_view(f1@),
            b == strs_view(f2@),
            i <= f1.len(),
            forall|m: int, q: int| 0 <= m < i && 0 <= q < b.len() ==> a[m] != b[q],
        decreases f1.len() - i,
    {
        let mut j: usize = 0;
        while j < f2.len()
            invariant
                a == strs_view(f1@),
                b == strs_view(f2@),
                i < f1.len(),
                j <= f2.len(),
                forall|m: int, q: int| 0 <= m < i && 0 <= q < b.len() ==> a[m] != b[q],
                forall|q: int| 0 <= q < j ==> a[i as int] != b[q],
            decreases f2.len() - j,
        {
            assert(a[i as int] == f1@[i as int]@ && b[j as int] == f2@[j as int]@);
            if f1[i] == f2[j] {
                assert(a[i as int] == b[j as int]);
                return 1;
            }
            j += 1;
        }
        i += 1;
    }
    0
}


/// Each string of `fs` with `p` in front.
pub open spec fn prefixed(p: Seq<char>, fs: Seq<Seq<char>>) -> Seq<Seq<char>> {
    fs.map_values(|s: Seq<char>| p + s)
}

/// Every string of `firsts` joined with every string of `fff`, each result
/// once, in order.
pub open spec fn concat_cands(acc: Seq<Seq<char>>, firsts: Seq<Seq<char>>, fff: Seq<Seq<char>>) -> Seq<Seq<char>>
    decreases firsts.len(),
{
    if firsts.len() == 0 {
        acc
    } else {
        add_missing(concat_cands(acc, firsts.drop_last(), fff), prefixed(firsts.last(), fff))
    }
}

/// The lookahead strings of one item of a conflict, before cutting: for a
/// complete item, the FOLLOW set of its head; otherwise its FIRST_k strings
/// followed by the FOLLOW set of its head.
pub open spec fn raw_cands(rules: Seq<RuleV>, follows: Seq<FollowV>, side: RuleV, b: BodyV, kk: int, fuel: nat) -> Option<Seq<Seq<char>>> {
    let fff = get_follows_spec(follows, side.head);
    if b.post[1] == '$' {
        Some(add_missing(Seq::empty(), fff))
    } else {
        match first_k_spec(rules, side, kk, 0, 0, fuel) {
            None => None,
            Some(f) => Some(concat_cands(Seq::empty(), f, fff)),
        }
    }
}

pub open spec fn comp_bodies(rules: Seq<RuleV>, follows: Seq<FollowV>, side: RuleV, bs: Seq<BodyV>, kk: int, fuel: nat, acc: Seq<Seq<Seq<char>>>) -> Option<Seq<Seq<Seq<char>>>>
    decreases bs.len(),
{
    if bs.len() == 0 {
        Some(acc)
    } else {
        match comp_bodies(rules, follows, side, bs.drop_last(), kk, fuel, acc) {
            None => None,
            Some(a) => match raw_cands(rules, follows, side, bs.last(), kk, fuel) {
                None => None,
                Some(c) => Some(a.push(filter_strs_spec(c, kk))),
            },
        }
    }
}

/// The lookahead sets of the items of a conflict, cut to `kk` characters.
pub open spec fn comp_sides(rules: Seq<RuleV>, follows: Seq<FollowV>, sides: Seq<RuleV>, kk: int, fuel: nat) -> Option<Seq<Seq<Seq<char>>>>
    decreases sides.len(),
{
    if sides.len() == 0 {
        Some(Seq::empty())
    } else {
        match comp_sides(rules, follows, sides.drop_last(), kk, fuel) {
            None => None,
            Some(a) => comp_bodies(rules, follows, sides.last(), sides.last().bodies, kk, fuel, a),
        }
    }
}

/// Whether two lookahead sets differ (`differ`), or meet (`!differ`).
pub open spec fn pair_flag(a: Seq<Seq<char>>, b: Seq<Seq<char>>, differ: bool) -> bool {
    if differ {
        !same_set(a, b)
    } else {
        meet(a, b)
    }
}

pub open spec fn pair_value(a: Seq<Seq<char>>, b: Seq<Seq<char>>, differ: bool) -> int {
    if pair_flag(a, b, differ) { 1 } else { 0 }
}

pub open spec fn pair_row(comp: Seq<Seq<Seq<char>>>, j: int, k: int, eq: bool) -> int
    decreases comp.len() - k,
{
    if k < 0 || k >= comp.len() {
        0
    } else {
        pair_value(comp[j], comp[k], eq) + pair_row(comp, j, k + 1, eq)
    }
}

/// The number of pairs of lookahead sets (first before second) that differ
/// (`eq`) or that meet (`!eq`), from the `j`-th set on.
pub open spec fn pair_total(comp: Seq<Seq<Seq<char>>>, j: int, eq: bool) -> int
    decreases comp.len() - j,
{
    if j < 0 || j >= comp.len() {
        0
    } else {
        pair_row(comp, j, j + 1, eq) + pair_total(comp, j + 1, eq)
    }
}

/// The conflict after checking it with lookahead `kk`, and whether it is
/// resolved: disjoint sets resolve it (keeping the first `kk` at which it was
/// resolved), pairwise-equal sets leave it hanging at `kk`, anything else
/// leaves it unresolved.
pub open spec fn resolve_one(c: ConflictV, comp: Seq<Seq<Seq<char>>>, kk: usize) -> (ConflictV, bool) {
    let d = pair_total(comp, 0, true);
    let x = pair_total(comp, 0, false);
    if x == 0 {
        (ConflictV { sides: c.sides, resolved: if !c.done { kk } else { c.resolved }, done: true }, true)
    } else if d == 0 {
        (ConflictV { sides: c.sides, resolved: kk, done: c.done }, false)
    } else {
        (ConflictV { sides: c.sides, resolved: 0, done: false }, false)
    }
}

/// All conflicts checked with lookahead `kk`, and whether all are resolved.
pub open spec fn resolve_spec(rules: Seq<RuleV>, follows: Seq<FollowV>, cs: Seq<ConflictV>, kk: usize, fuel: nat) -> Option<(Seq<ConflictV>, bool)>
    decreases cs.len(),
{
    if cs.len() == 0 {
        Some((Seq::empty(), true))
    } else {
        match resolve_spec(rules, follows, cs.drop_last(), kk, fuel) {
            None => None,
            Some((rs, ok)) => match comp_sides(rules, follows, cs.last().sides, kk as int, fuel) {
                None => None,
                Some(comp) => {
                    let (c2, ok2) = resolve_one(cs.last(), comp, kk);
                    Some((rs.push(c2), ok && ok2))
                },
            },
        }
    }
}

/// Every string of the candidates, if any, can be cut to `kk` characters.
pub open spec fn cands_cuttable(raw: Option<Seq<Seq<char>>>, kk: int) -> bool {
    match raw {
        Some(c) => forall|m: int| 0 <= m < c.len() ==> cuttable(#[trigger] c[m], kk),
        None => true,
    }
}

/// The lookahead strings that `resolve` cuts can be cut, and the items of the
/// conflicts are well formed.
pub open spec fn resolve_ok(rules: Seq<RuleV>, follows: Seq<FollowV>, cs: Seq<ConflictV>, kk: int, fuel: nat) -> bool {
    &&& forall|i: int| 0 <= i < cs.len() ==> wf_rules(#[trigger] cs[i].sides)
    &&& forall|i: int, j: int, k: int|
        0 <= i < cs.len() && 0 <= j < cs[i].sides.len() && 0 <= k < cs[i].sides[j].bodies.len() ==>
            cands_cuttable(#[trigger] raw_cands(rules, follows, cs[i].sides[j], cs[i].sides[j].bodies[k], kk, fuel), kk)
}

pub open spec fn comp_view(v: Seq<Vec<String>>) -> Seq<Seq<Seq<char>>> {
    v.map_values(|x: Vec<String>| strs_view(x@))
}

/// The lookahead strings of one item of a conflict, before cutting (see
/// [`raw_cands`]).
pub(crate) fn raw_candidates(rules: &Vec<Rule>, follows: &Vec<FOLLOW>, side: &Rule, b: &Rule_body, kk: usize, fuel: usize) -> (res: Option<Vec<String>>)
    requires
        wf_rules(rules_view(rules@)),
        forall|q: int| 0 <= q < side@.bodies.len() ==> wf_post(#[trigger] side@.bodies[q].post),
        wf_post(b@.post),
        kk <= i32::MAX,
    ensures
        match raw_cands(rules_view(rules@), follows_view(follows@), side@, b@, kk as int, fuel as nat) {
            None => res is None,
            Some(c) => res matches Some(v) && strs_view(v@) == c,
        },
{
    let ghost fv = follows_view(follows@);
    let ghost fff = get_follows_spec(fv, side@.head);
    let mut cands: Vec<String> = Vec::new();
    if char_at(&b.post, 1) == '$' {
        let f = get_follows(clone_follows(follows), side.head.clone());
        let mut l: usize = 0;
        assert(strs_view(cands@) =~= add_missing(Seq::empty(), fff.take(0)));
        while l < f.len()
            invariant
                strs_view(f@) == fff,
                l <= f.len(),
                strs_view(cands@) == add_missing(Seq::empty(), fff.take(l as int)),
            decreases f.len() - l,
        {
            assert(fff.take(l + 1).drop_last() =~= fff.take(l as int));
            assert(fff.take(l + 1).last() == f@[l as int]@);
            if !inside(f[l].clone(), clone_strs(&cands)) {
                let ghost prev = strs_view(cands@);
                cands.push(f[l].clone());
                assert(strs_view(cands@) =~= prev.push(f@[l as int]@));
            }
            l += 1;
        }
        assert(fff.take(l as int) =~= fff);
        assert(raw_cands(rules_view(rules@), fv, side@, b@, kk as int, fuel as nat) == Some(strs_view(cands@)));
        return Some(cands);
    }
    let firsts = match first_k(clone_rules(rules), side.clone(), kk as i32, 0, 0, fuel) {
        None => {
            return None;
        },
        Some(f) => f,
    };
    let ghost fs = strs_view(firsts@);
    let mut l: usize = 0;
    assert(strs_view(cands@) =~= concat_cands(Seq::empty(), fs.take(0), fff));
    while l < firsts.len()
        invariant
            fs == strs_view(firsts@),
            fv == follows_view(follows@),
            fff == get_follows_spec(fv, side@.head),
            l <= firsts.len(),
            strs_view(cands@) == concat_cands(Seq::empty(), fs.take(l as int), fff),
        decreases firsts.len() - l,
    {
        let f = get_follows(clone_follows(follows), side.head.clone());
        let ghost base = strs_view(cands@);
        let ghost pre = prefixed(fs[l as int], fff);
        let mut fl: usize = 0;
        assert(base =~= add_missing(base, pre.take(0)));
        while fl < f.len()
            invariant
                strs_view(f@) == fff,
                fs == strs_view(firsts@),
                l < firsts.len(),
                pre == prefixed(fs[l as int], fff),
                fl <= f.len(),
                strs_view(cands@) == add_missing(base, pre.take(fl as int)),
            decreases f.len() - fl,
        {
            let mut joined = firsts[l].clone();
            push_str(&mut joined, &f[fl]);
            assert(joined@ == pre[fl as int]);
            assert(pre.take(fl + 1).drop_last() =~= pre.take(fl as int));
            assert(pre.take(fl + 1).last() == pre[fl as int]);
            if !inside(joined.clone(), clone_strs(&cands)) {
                let ghost prev = strs_view(cands@);
                cands.push(joined);
                assert(strs_view(cands@) =~= prev.push(pre[fl as int]));
            }
            fl += 1;
        }
        assert(pre.take(fl as int) =~= pre);
        assert(fs.take(l + 1).drop_last() =~= fs.take(l as int));
        assert(fs.take(l + 1).last() == fs[l as int]);
        l += 1;
    }
    assert(fs.take(l as int) =~= fs);
    assert(raw_cands(rules_view(rules@), fv, side@, b@, kk as int, fuel as nat) == Some(strs_view(cands@)));
    Some(cands)
}


/// The cut lookahead strings of one item of a conflict.
fn candidates(rules: &Vec<Rule>, follows: &Vec<FOLLOW>, side: &Rule, b: &Rule_body, kk: usize, fuel: usize) -> (res: Option<Vec<String>>)
    requires
        wf_rules(rules_view(rules@)),
        forall|q: int| 0 <= q < side@.bodies.len() ==> wf_post(#[trigger] side@.bodies[q].post),
        wf_post(b@.post),
        kk <= i32::MAX,
        cands_cuttable(raw_cands(rules_view(rules@), follows_view(follows@), side@, b@, kk as int, fuel as nat), kk as int),
    ensures
        match raw_cands(rules_view(rules@), follows_view(follows@), side@, b@, kk as int, fuel as nat) {
            None => res is None,
            Some(c) => res matches Some(v) && strs_view(v@) == filter_strs_spec(c, kk as int),
        },
{
    let cands = match raw_candidates(rules, follows, side, b, kk, fuel) {
        None => {
            return None;
        },
        Some(c) => c,
    };
    let ghost c = strs_view(cands@);
    assert forall|i: int| 0 <= i < cands@.len() implies cuttable(#[trigger] cands@[i]@, kk as int) by {
        assert(cuttable(c[i], kk as int));
        assert(c[i] == cands@[i]@);
    }
    Some(filter_strs(cands, kk))
}

/// The cut lookahead sets of the items of one conflict.
fn comp_for(rules: &Vec<Rule>, follows: &Vec<FOLLOW>, sides: &Vec<Rule>, kk: usize, fuel: usize) -> (res: Option<Vec<Vec<String>>>)
    requires
        wf_rules(rules_view(rules@)),
        wf_rules(rules_view(sides@)),
        kk <= i32::MAX,
        forall|j: int, k: int| 0 <= j < sides@.len() && 0 <= k < rules_view(sides@)[j].bodies.len() ==>
            cands_cuttable(#[trigger] raw_cands(rules_view(rules@), follows_view(follows@), rules_view(sides@)[j], rules_view(sides@)[j].bodies[k], kk as int, fuel as nat), kk as int),
    ensures
        match comp_sides(rules_view(rules@), follows_view(follows@), rules_view(sides@), kk as int, fuel as nat) {
            None => res is None,
            Some(c) => res matches Some(v) && comp_view(v@) == c,
        },
{
    let ghost rv = rules_view(rules@);
    let ghost fv = follows_view(follows@);
    let ghost sv = rules_view(sides@);
    let mut comp: Vec<Vec<String>> = Vec::new();
    assert(comp_view(comp@) =~= Seq::<Seq<Seq<char>>>::empty());
    assert(sv.take(0) =~= Seq::<RuleV>::empty());
    let mut j: usize = 0;
    while j < sides.len()
        invariant
            rv == rules_view(rules@),
            fv == follows_view(follows@),
            sv == rules_view(sides@),
            wf_rules(rv),
            wf_rules(sv),
            kk <= i32::MAX,
            forall|j: int, k: int| 0 <= j < sides@.len() && 0 <= k < sv[j].bodies.len() ==>
                cands_cuttable(#[trigger] raw_cands(rv, fv, sv[j], sv[j].bodies[k], kk as int, fuel as nat), kk as int),
            j <= sides.len(),
            comp_sides(rv, fv, sv.take(j as int), kk as int, fuel as nat) == Some(comp_view(comp@)),
        decreases sides.len() - j,
    {
        let ghost side = sv[j as int];
        assert(side == sides@[j as int]@);
        let ghost c0 = comp_view(comp@);
        let mut k: usize = 0;
        assert(side.bodies.take(0) =~= Seq::<BodyV>::empty());
        assert forall|q: int| 0 <= q < side.bodies.len() implies wf_post(#[trigger] side.bodies[q].post) by {
            assert(wf_post(sv[j as int].bodies[q].post));
        }
        while k < sides[j].bodies.len()
            invariant
                rv == rules_view(rules@),
                fv == follows_view(follows@),
                sv == rules_view(sides@),
                wf_rules(rv),
                wf_rules(sv),
                kk <= i32::MAX,
                forall|j: int, k: int| 0 <= j < sides@.len() && 0 <= k < sv[j].bodies.len() ==>
                    cands_cuttable(#[trigger] raw_cands(rv, fv, sv[j], sv[j].bodies[k], kk as int, fuel as nat), kk as int),
                j < sides.len(),
                side == sv[j as int],
                side == sides@[j as int]@,
                forall|q: int| 0 <= q < side.bodies.len() ==> wf_post(#[trigger] side.bodies[q].post),
                k <= side.bodies.len(),
                comp_sides(rv, fv, sv.take(j as int), kk as int, fuel as nat) == Some(c0),
                comp_bodies(rv, fv, side, side.bodies.take(k as int), kk as int, fuel as nat, c0) == Some(comp_view(comp@)),
            decreases side.bodies.len() - k,
        {
            let b = &sides[j].bodies[k];
            assert(side.bodies[k as int] == b@);
            assert(side.bodies.take(k + 1).drop_last() =~= side.bodies.take(k as int));
            assert(side.bodies.take(k + 1).last() == b@);
            assert(cands_cuttable(raw_cands(rv, fv, sv[j as int], sv[j as int].bodies[k as int], kk as int, fuel as nat), kk as int));
            match candidates(rules, follows, &sides[j], b, kk, fuel) {
                None => {
                    proof {
                        assert(comp_bodies(rv, fv, side, side.bodies.take(k + 1), kk as int, fuel as nat, c0) is None);
                        lemma_comp_bodies_none(rv, fv, side, side.bodies, k + 1, kk as int, fuel as nat, c0);
                        assert(sv.take(j + 1).drop_last() =~= sv.take(j as int));
                        assert(sv.take(j + 1).last() == side);
                        lemma_comp_sides_none(rv, fv, sv, j + 1, kk as int, fuel as nat);
                    }
                    return None;
                },
                Some(c) => {
                    let ghost prev = comp_view(comp@);
                    comp.push(c);
                    assert(comp_view(comp@) =~= prev.push(strs_view(comp@[comp@.len() - 1]@)));
                },
            }
            k += 1;
        }
        assert(side.bodies.take(k as int) =~= side.bodies);
        assert(sv.take(j + 1).drop_last() =~= sv.take(j as int));
        assert(sv.take(j + 1).last() == side);
        j += 1;
    }
    assert(sv.take(j as int) =~= sv);
    Some(comp)
}

proof fn lemma_comp_bodies_none(rules: Seq<RuleV>, follows: Seq<FollowV>, side: RuleV, bs: Seq<BodyV>, m: int, kk: int, fuel: nat, acc: Seq<Seq<Seq<char>>>)
    requires
        0 <= m <= bs.len(),
        comp_bodies(rules, follows, side, bs.take(m), kk, fuel, acc) is None,
    ensures
        comp_bodies(rules, follows, side, bs, kk, fuel, acc) is None,
    decreases bs.len() - m,
{
    if m == bs.len() {
        assert(bs.take(m) =~= bs);
    } else {
        assert(bs.take(m + 1).drop_last() =~= bs.take(m));
        lemma_comp_bodies_none(rules, follows, side, bs, m + 1, kk, fuel, acc);
    }
}

proof fn lemma_comp_sides_none(rules: Seq<RuleV>, follows: Seq<FollowV>, sides: Seq<RuleV>, m: int, kk: int, fuel: nat)
    requires
        0 <= m <= sides.len(),
        comp_sides(rules, follows, sides.take(m), kk, fuel) is None,
    ensures
        comp_sides(rules, follows, sides, kk, fuel) is None,
    decreases sides.len() - m,
{
    if m == sides.len() {
        assert(sides.take(m) =~= sides);
    } else {
        assert(sides.take(m + 1).drop_last() =~= sides.take(m));
        lemma_comp_sides_none(rules, follows, sides, m + 1, kk, fuel);
    }
}

proof fn lemma_pair_row_bound(comp: Seq<Seq<Seq<char>>>, j: int, k: int, eq: bool)
    requires
        0 <= k,
    ensures
        0 <= pair_row(comp, j, k, eq) <= if k <= comp.len() { comp.len() - k } else { 0 },
    decreases comp.len() - k,
{
    if k < comp.len() {
        lemma_pair_row_bound(comp, j, k + 1, eq);
    }
}

proof fn lemma_pair_total_bound(comp: Seq<Seq<Seq<char>>>, j: int, eq: bool)
    requires
        0 <= j,
    ensures
        0 <= pair_total(comp, j, eq) <= if j <= comp.len() { (comp.len() - j) * comp.len() } else { 0 },
    decreases comp.len() - j,
{
    if j < comp.len() {
        lemma_pair_row_bound(comp, j, j + 1, eq);
        lemma_pair_total_bound(comp, j + 1, eq);
        assert((comp.len() - j) * comp.len() == (comp.len() - (j + 1)) * comp.len() + comp.len()) by (nonlinear_arith);
    }
}

/// The numbers of pairs of sets that differ and of pairs of sets that meet.
fn pair_counts(comp: &Vec<Vec<String>>) -> (res: (u128, u128))
    ensures
        res.0 as int == pair_total(comp_view(comp@), 0, true),
        res.1 as int == pair_total(comp_view(comp@), 0, false),
{
    let ghost cv = comp_view(comp@);
    let n = comp.len();
    proof {
        lemma_pair_total_bound(cv, 0, true);
        lemma_pair_total_bound(cv, 0, false);
        assert(n as int * n as int <= usize::MAX as int * usize::MAX as int) by (nonlinear_arith)
            requires n <= usize::MAX;
        assert(usize::MAX as int * usize::MAX as int <= u128::MAX) by (nonlinear_arith)
            requires usize::MAX <= u64::MAX;
    }
    let mut differing: u128 = 0;
    let mut intersection: u128 = 0;
    let mut j: usize = 0;
    while j < n
        invariant
            cv == comp_view(comp@),
            n == comp.len(),
            j <= n,
            differing as int + pair_total(cv, j as int, true) == pair_total(cv, 0, true),
            intersection as int + pair_total(cv, j as int, false) == pair_total(cv, 0, false),
            pair_total(cv, 0, true) <= u128::MAX,
            pair_total(cv, 0, false) <= u128::MAX,
        decreases n - j,
    {
        let mut k: usize = j + 1;
        proof {
            lemma_pair_total_bound(cv, j + 1, true);
            lemma_pair_total_bound(cv, j + 1, false);
        }
        while k < n
            invariant
                cv == comp_view(comp@),
                n == comp.len(),
                j < n,
                j + 1 <= k <= n,
                differing as int + pair_row(cv, j as int, k as int, true) + pair_total(cv, j + 1, true) == pair_total(cv, 0, true),
                intersection as int + pair_row(cv, j as int, k as int, false) + pair_total(cv, j + 1, false) == pair_total(cv, 0, false),
                pair_total(cv, 0, true) <= u128::MAX,
                pair_total(cv, 0, false) <= u128::MAX,
                0 <= pair_total(cv, j + 1, true),
                0 <= pair_total(cv, j + 1, false),
            decreases n - k,
        {
            proof {
                lemma_pair_row_bound(cv, j as int, k + 1, true);
                lemma_pair_row_bound(cv, j as int, k + 1, false);
            }
            assert(cv[j as int] == strs_view(comp@[j as int]@));
            assert(cv[k as int] == strs_view(comp@[k as int]@));
            let e = equal(comp[j].clone(), comp[k].clone());
            let x = intersect(comp[j].clone(), comp[k].clone());
            differing = differing + (1 - e) as u128;
            intersection = intersection + x as u128;
            k += 1;
        }
        j += 1;
    }
    (differing, intersection)
}


proof fn lemma_resolve_none(rules: Seq<RuleV>, follows: Seq<FollowV>, cs: Seq<ConflictV>, m: int, kk: usize, fuel: nat)
    requires
        0 <= m <= cs.len(),
        resolve_spec(rules, follows, cs.take(m), kk, fuel) is None,
    ensures
        resolve_spec(rules, follows, cs, kk, fuel) is None,
    decreases cs.len() - m,
{
    if m == cs.len() {
        assert(cs.take(m) =~= cs);
    } else {
        assert(cs.take(m + 1).drop_last() =~= cs.take(m));
        lemma_resolve_none(rules, follows, cs, m + 1, kk, fuel);
    }
}

/// Checks every conflict with lookahead `kk` (see [`resolve_one`]); also says
/// whether all of them are resolved. `None` when a FIRST_k computation runs
/// out of `fuel`.
pub fn resolve(rules: Vec<Rule>, follows: Vec<FOLLOW>, conflicts: Vec<Conflict>, kk: usize, fuel: usize) -> (res: Option<(Vec<Conflict>, bool)>)
    requires
        wf_rules(rules_view(rules@)),
        kk <= i32::MAX,
        resolve_ok(rules_view(rules@), follows_view(follows@), conflicts_view(conflicts@), kk as int, fuel as nat),
    ensures
        match resolve_spec(rules_view(rules@), follows_view(follows@), conflicts_view(conflicts@), kk, fuel as nat) {
            None => res is None,
            Some((cs, ok)) => res matches Some((v, b)) && conflicts_view(v@) == cs && b == ok,
        },
{
    let ghost rv = rules_view(rules@);
    let ghost fv = follows_view(follows@);
    let ghost cv = conflicts_view(conflicts@);
    let mut out: Vec<Conflict> = Vec::new();
    let mut ok = true;
    assert(cv.take(0) =~= Seq::<ConflictV>::empty());
    assert(conflicts_view(out@) =~= Seq::<ConflictV>::empty());
    let mut i: usize = 0;
    while i < conflicts.len()
        invariant
            rv == rules_view(rules@),
            fv == follows_view(follows@),
            cv == conflicts_view(conflicts@),
            wf_rules(rv),
            kk <= i32::MAX,
            resolve_ok(rv, fv, cv, kk as int, fuel as nat),
            i <= conflicts.len(),
            resolve_spec(rv, fv, cv.take(i as int), kk, fuel as nat) == Some((conflicts_view(out@), ok)),
        decreases conflicts.len() - i,
    {
        let c = &conflicts[i];
        assert(cv[i as int] == c@);
        assert(wf_rules(cv[i as int].sides));
        assert(cv.take(i + 1).drop_last() =~= cv.take(i as int));
        assert(cv.take(i + 1).last() == c@);
        assert forall|j: int, k: int| 0 <= j < c.sides@.len() && 0 <= k < rules_view(c.sides@)[j].bodies.len() implies
            cands_cuttable(#[trigger] raw_cands(rv, fv, rules_view(c.sides@)[j], rules_view(c.sides@)[j].bodies[k], kk as int, fuel as nat), kk as int) by {
            assert(cv[i as int].sides == rules_view(c.sides@));
        }
        let comp = match comp_for(&rules, &follows, &c.sides, kk, fuel) {
            None => {
                proof {
                    assert(resolve_spec(rv, fv, cv.take(i + 1), kk, fuel as nat) is None);
                    lemma_resolve_none(rv, fv, cv, i + 1, kk, fuel as nat);
                }
                return None;
            },
            Some(v) => v,
        };
        let (differing, intersection) = pair_counts(&comp);
        let mut nc = c.clone();
        let ghost comp_v = comp_view(comp@);
        if intersection == 0 {
            if !nc.done {
                nc.resolved = kk;
            }
            nc.done = true;
        } else if differing == 0 {
            nc.resolved = kk;
            ok = false;
        } else {
            nc.resolved = 0;
            nc.done = false;
            ok = false;
        }
        assert(nc@ == resolve_one(c@, comp_v, kk).0);
        let ghost prev = conflicts_view(out@);
        out.push(nc);
        assert(conflicts_view(out@) =~= prev.push(resolve_one(c@, comp_v, kk).0));
        i += 1;
    }
    assert(cv.take(i as int) =~= cv);
    Some((out, ok))
}

} // verus!
