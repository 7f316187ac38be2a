//! Unification of a regular expression with the left side of a rule: the
//! equations between subexpressions, their solved form, and the rewriting of
//! an expression by a list of rules.
use vstd::prelude::*;
use crate::normalize::regex::{Term, TermV, term_view, terms_view, clone_term, clone_terms, reg_text, reg_text_of};

verus! {

/// An equation `vars = terms`: every variable of `vars` stands for every
/// term of `terms`; `instances` counts the occurrences of the variables in
/// the other equations.
pub struct EqTerm {
    pub instances: i32,
    pub vars: Vec<Term>,
    pub terms: Vec<Term>,
}

/// The mathematical value of an [`EqTerm`].
pub struct EqTermV {
    pub instances: int,
    pub vars: Seq<TermV>,
    pub terms: Seq<TermV>,
}

impl View for EqTerm {
    type V = EqTermV;

    open spec fn view(&self) -> EqTermV {
        EqTermV { instances: self.instances as int, vars: terms_view(self.vars@), terms: terms_view(self.terms@) }
    }
}

pub open spec fn eqs_view(s: Seq<EqTerm>) -> Seq<EqTermV> {
    s.map_values(|e: EqTerm| e@)
}

/// A rewriting rule `left = right`.
pub struct Rule {
    pub left: Term,
    pub right: Term,
}

/// The mathematical value of a [`Rule`].
pub struct RuleV {
    pub left: TermV,
    pub right: TermV,
}

impl View for Rule {
    type V = RuleV;

    open spec fn view(&self) -> RuleV {
        RuleV { left: self.left@, right: self.right@ }
    }
}

pub open spec fn rules_view(s: Seq<Rule>) -> Seq<RuleV> {
    s.map_values(|r: Rule| r@)
}

/// A copy of a rule.
pub fn clone_rule(r: &Rule) -> (res: Rule)
    ensures
        res@ == r@,
{
    Rule { left: clone_term(&r.left), right: clone_term(&r.right) }
}

/// Two expressions print the same.
pub open spec fn same_text(a: TermV, b: TermV) -> bool {
    reg_text(a) == reg_text(b)
}

/// A copy of an equation.
pub fn clone_eq(e: &EqTerm) -> (res: EqTerm)
    ensures
        res@ == e@,
{
    EqTerm { instances: e.instances, vars: clone_terms(&e.vars), terms: clone_terms(&e.terms) }
}

/// A copy of a list of equations.
pub fn clone_eqs(es: &Vec<EqTerm>) -> (res: Vec<EqTerm>)
    ensures
        eqs_view(res@) == eqs_view(es@),
{
    let mut res: Vec<EqTerm> = Vec::new();
    let mut i: usize = 0;
    while i < es.len()
        invariant
            i <= es.len(),
            eqs_view(res@) == eqs_view(es@).take(i as int),
        decreases es.len() - i,
    {
        let ghost prev = eqs_view(res@);
        let e = clone_eq(&es[i]);
        res.push(e);
        assert(eqs_view(res@) =~= prev.push(e@));
        assert(eqs_view(es@).take(i + 1) =~= eqs_view(es@).take(i as int).push(es@[i as int]@));
        i += 1;
    }
    assert(eqs_view(es@).take(i as int) =~= eqs_view(es@));
    res
}

/// Whether two expressions print the same.
fn text_eq(a: &Term, b: &Term) -> (res: bool)
    ensures
        res == same_text(a@, b@),
{
    let x = reg_text_of(a);
    let y = reg_text_of(b);
    x == y
}

/// All of `consts` print as the first of them.
pub open spec fn all_same_text(consts: Seq<TermV>) -> bool {
    forall|i: int| 0 <= i < consts.len() ==> same_text(#[trigger] consts[i], consts[0])
}

/// Every term of `consts` prints as every term of `terms`.
pub open spec fn texts_agree(consts: Seq<TermV>, terms: Seq<TermV>) -> bool {
    forall|i: int, j: int| 0 <= i < consts.len() && 0 <= j < terms.len() ==> same_text(#[trigger] consts[i], #[trigger] terms[j])
}

/// Adding the values `consts` to a variable whose values are `terms`: a
/// variable without values takes `consts` if they all print alike; one with
/// values keeps them if `consts` print as all of them. The flag tells of a
/// disagreement.
pub open spec fn insert_carefully_spec(terms: Seq<TermV>, consts: Seq<TermV>) -> (Seq<TermV>, bool) {
    if terms.len() == 0 {
        if all_same_text(consts) {
            (consts, false)
        } else {
            (terms, true)
        }
    } else if texts_agree(consts, terms) {
        (terms, false)
    } else {
        (terms, true)
    }
}

/// Adds the values `consts` to a variable whose values are `terms`.
pub fn insert_carefully(terms: Vec<Term>, consts: Vec<Term>) -> (res: (Vec<Term>, bool))
    requires
        terms@.len() == 0 ==> consts@.len() > 0,
    ensures
        (terms_view(res.0@), res.1) == insert_carefully_spec(terms_view(terms@), terms_view(consts@)),
{
    let ghost tv = terms_view(terms@);
    let ghost cv = terms_view(consts@);
    if terms.len() == 0 {
        let mut i: usize = 0;
        while i < consts.len()
            invariant
                i <= consts.len(),
                consts.len() > 0,
                cv == terms_view(consts@),
                tv == terms_view(terms@),
                terms@.len() == 0,
                forall|k: int| 0 <= k < i ==> same_text(#[trigger] cv[k], cv[0]),
            decreases consts.len() - i,
        {
            assert(cv[i as int] == consts@[i as int]@);
            assert(cv[0] == consts@[0]@);
            if !text_eq(&consts[i], &consts[0]) {
                assert(!same_text(cv[i as int], cv[0]));
                assert(!all_same_text(cv));
                return (terms, true);
            }
            i += 1;
        }
        return (consts, false);
    }
    let mut i: usize = 0;
    while i < consts.len()
        invariant
            i <= consts.len(),
            cv == terms_view(consts@),
            tv == terms_view(terms@),
            forall|k: int, l: int| 0 <= k < i && 0 <= l < tv.len() ==> same_text(#[trigger] cv[k], #[trigger] tv[l]),
        decreases consts.len() - i,
    {
        let mut j: usize = 0;
        while j < terms.len()
            invariant
                i < consts.len(),
                j <= terms.len(),
                cv == terms_view(consts@),
                tv == terms_view(terms@),
                forall|k: int, l: int| 0 <= k < i && 0 <= l < tv.len() ==> same_text(#[trigger] cv[k], #[trigger] tv[l]),
                forall|l: int| 0 <= l < j ==> same_text(cv[i as int], #[trigger] tv[l]),
            decreases terms.len() - j,
        {
            assert(cv[i as int] == consts@[i as int]@);
            assert(tv[j as int] == terms@[j as int]@);
            if !text_eq(&consts[i], &terms[j]) {
                return (terms, true);
            }
            j += 1;
        }
        i += 1;
    }
    (terms, false)
}

/// Some variable of `e` has a name among `vars`.
pub open spec fn shares_var(e: EqTermV, vars: Seq<TermV>) -> bool {
    exists|i: int, jj: int| 0 <= i < vars.len() && 0 <= jj < e.vars.len() && #[trigger] vars[i].value == #[trigger] e.vars[jj].value
}

/// Some value of `e` prints otherwise than some term of `consts`.
pub open spec fn disagrees(e: EqTermV, consts: Seq<TermV>) -> bool {
    exists|k: int, jjj: int| 0 <= k < consts.len() && 0 <= jjj < e.terms.len() && !same_text(#[trigger] e.terms[jjj], #[trigger] consts[k])
}

/// An equation of `current` on one of `vars` has a value that prints
/// otherwise than one of `consts`.
pub open spec fn conflicts_spec(current: Seq<EqTermV>, vars: Seq<TermV>, consts: Seq<TermV>) -> bool {
    exists|j: int| 0 <= j < current.len() && shares_var(#[trigger] current[j], vars) && disagrees(current[j], consts)
}

/// Whether binding `vars` to `consts` contradicts the equations `current`.
#[verifier::loop_isolation(false)]
pub fn conflicts(current: Vec<EqTerm>, vars: Vec<Term>, consts: Vec<Term>) -> (res: bool)
    ensures
        res == conflicts_spec(eqs_view(current@), terms_view(vars@), terms_view(consts@)),
{
    let ghost cur = eqs_view(current@);
    let ghost vv = terms_view(vars@);
    let ghost cv = terms_view(consts@);
    let mut i: usize = 0;
    while i < vars.len()
        invariant
            i <= vars.len(),
            cur == eqs_view(current@),
            vv == terms_view(vars@),
            cv == terms_view(consts@),
            forall|j: int, a: int, jj: int|
                0 <= j < cur.len() && 0 <= a < i && 0 <= jj < cur[j].vars.len() && #[trigger] vv[a].value == #[trigger] cur[j].vars[jj].value
                    ==> !disagrees(cur[j], cv),
        decreases vars.len() - i,
    {
        let mut j: usize = 0;
        while j < current.len()
            invariant
                i < vars.len(),
                j <= current.len(),
                cur == eqs_view(current@),
                vv == terms_view(vars@),
                cv == terms_view(consts@),
                forall|j1: int, a: int, jj: int|
                    0 <= j1 < cur.len() && 0 <= a < i && 0 <= jj < cur[j1].vars.len() && #[trigger] vv[a].value == #[trigger] cur[j1].vars[jj].value
                        ==> !disagrees(cur[j1], cv),
                forall|j1: int, jj: int|
                    0 <= j1 < j && 0 <= jj < cur[j1].vars.len() && vv[i as int].value == #[trigger] cur[j1].vars[jj].value
                        ==> !disagrees(cur[j1], cv),
            decreases current.len() - j,
        {
            let e = &current[j];
            assert(cur[j as int] == e@);
            let mut jj: usize = 0;
            while jj < e.vars.len()
                invariant
                    i < vars.len(),
                    j < current.len(),
                    e == current@[j as int],
                    jj <= e.vars.len(),
                    cur == eqs_view(current@),
                    vv == terms_view(vars@),
                    cv == terms_view(consts@),
                    forall|j1: int, a: int, jj1: int|
                        0 <= j1 < cur.len() && 0 <= a < i && 0 <= jj1 < cur[j1].vars.len() && #[trigger] vv[a].value == #[trigger] cur[j1].vars[jj1].value
                            ==> !disagrees(cur[j1], cv),
                    forall|j1: int, jj1: int|
                        0 <= j1 < j && 0 <= jj1 < cur[j1].vars.len() && vv[i as int].value == #[trigger] cur[j1].vars[jj1].value
                            ==> !disagrees(cur[j1], cv),
                    forall|jj1: int| 0 <= jj1 < jj && vv[i as int].value == #[trigger] cur[j as int].vars[jj1].value
                        ==> !disagrees(cur[j as int], cv),
                decreases e.vars.len() - jj,
            {
                assert(vv[i as int] == vars@[i as int]@);
                assert(cur[j as int].vars[jj as int] == e.vars@[jj as int]@);
                if vars[i].value == e.vars[jj].value {
                    let mut k: usize = 0;
                    while k < consts.len()
                        invariant
                            j < current.len(),
                            e == current@[j as int],
                            cur == eqs_view(current@),
                            cv == terms_view(consts@),
                            k <= consts.len(),
                            forall|k1: int, t: int| 0 <= k1 < k && 0 <= t < cur[j as int].terms.len()
                                ==> same_text(#[trigger] cur[j as int].terms[t], #[trigger] cv[k1]),
                        decreases consts.len() - k,
                    {
                        let mut t: usize = 0;
                        while t < e.terms.len()
                            invariant
                                j < current.len(),
                                e == current@[j as int],
                                cur == eqs_view(current@),
                                cv == terms_view(consts@),
                                k < consts.len(),
                                t <= e.terms.len(),
                                forall|k1: int, t1: int| 0 <= k1 < k && 0 <= t1 < cur[j as int].terms.len()
                                    ==> same_text(#[trigger] cur[j as int].terms[t1], #[trigger] cv[k1]),
                                forall|t1: int| 0 <= t1 < t ==> same_text(#[trigger] cur[j as int].terms[t1], cv[k as int]),
                            decreases e.terms.len() - t,
                        {
                            assert(cur[j as int].terms[t as int] == e.terms@[t as int]@);
                            assert(cv[k as int] == consts@[k as int]@);
                            if !text_eq(&e.terms[t], &consts[k]) {
                                proof {
                                    assert(vv[i as int].value == cur[j as int].vars[jj as int].value);
                                    assert(disagrees(cur[j as int], cv));
                                    assert(shares_var(cur[j as int], vv));
                                }
                                return true;
                            }
                            t += 1;
                        }
                        k += 1;
                    }
                }
                jj += 1;
            }
            j += 1;
        }
        i += 1;
    }
    proof {
        if conflicts_spec(cur, vv, cv) {
            let j = choose|j: int| 0 <= j < cur.len() && shares_var(#[trigger] cur[j], vv) && disagrees(cur[j], cv);
            let (a, jj) = choose|a: int, jj: int| 0 <= a < vv.len() && 0 <= jj < cur[j].vars.len() && #[trigger] vv[a].value == #[trigger] cur[j].vars[jj].value;
            assert(!disagrees(cur[j], cv));
        }
    }
    false
}

/// A variable of `e` is named `v`.
pub open spec fn has_var(e: EqTermV, v: Seq<char>) -> bool {
    exists|jj: int| 0 <= jj < e.vars.len() && #[trigger] e.vars[jj].value == v
}

/// The first equation of `eqs`, from index `j` on, with a variable named `v`.
pub open spec fn first_eq_from(eqs: Seq<EqTermV>, v: Seq<char>, j: int) -> Option<int>
    decreases eqs.len() - j,
{
    if j < 0 || j >= eqs.len() {
        None
    } else if has_var(eqs[j], v) {
        Some(j)
    } else {
        first_eq_from(eqs, v, j + 1)
    }
}

/// The equation met first when the names of `vars`, from index `i` on, are
/// looked up in turn in `eqs`.
pub open spec fn first_hit_from(eqs: Seq<EqTermV>, vars: Seq<TermV>, i: int) -> Option<int>
    decreases vars.len() - i,
{
    if i < 0 || i >= vars.len() {
        None
    } else {
        match first_eq_from(eqs, vars[i].value, 0) {
            Some(j) => Some(j),
            None => first_hit_from(eqs, vars, i + 1),
        }
    }
}

/// Variable `jj` of equation `j` has the name of `vars[a]`.
pub open spec fn is_hit(eqs: Seq<EqTermV>, vars: Seq<TermV>, a: int, j: int, jj: int) -> bool {
    &&& 0 <= a < vars.len()
    &&& 0 <= j < eqs.len()
    &&& 0 <= jj < eqs[j].vars.len()
    &&& eqs[j].vars[jj].value == vars[a].value
}

/// The names of `vars` are met at least twice among the variables of `eqs`.
pub open spec fn two_hits(eqs: Seq<EqTermV>, vars: Seq<TermV>) -> bool {
    exists|a1: int, j1: int, jj1: int, a2: int, j2: int, jj2: int|
        #[trigger] is_hit(eqs, vars, a1, j1, jj1) && #[trigger] is_hit(eqs, vars, a2, j2, jj2) && (a1 != a2 || j1 != j2 || jj1 != jj2)
}

/// The equation `vars = consts`, not yet counted.
pub open spec fn new_eq(vars: Seq<TermV>, consts: Seq<TermV>) -> EqTermV {
    EqTermV { instances: 0, vars, terms: consts }
}

/// `e` with the values `terms`.
pub open spec fn with_terms(e: EqTermV, terms: Seq<TermV>) -> EqTermV {
    EqTermV { instances: e.instances, vars: e.vars, terms }
}

/// Recording `vars = consts` in the equations `eqs` and the list `current`
/// of what has been recorded: the first equation met that names one of
/// `vars` takes the values (see [`insert_carefully_spec`]); if none does,
/// the equation is added. The flag tells of a disagreement, a conflict with
/// `current`, or a second equation met. `None`: a variable without values
/// would take no values, and there is no first value to index.
pub open spec fn insert_terms_spec(eqs: Seq<EqTermV>, vars: Seq<TermV>, consts: Seq<TermV>, current: Seq<EqTermV>) -> Option<(Seq<EqTermV>, Seq<EqTermV>, bool)> {
    let e = new_eq(vars, consts);
    match first_hit_from(eqs, vars, 0) {
        None => if conflicts_spec(current, vars, consts) {
            Some((eqs, current, true))
        } else {
            Some((eqs.push(e), current.push(e), false))
        },
        Some(j) => if eqs[j].terms.len() == 0 && consts.len() == 0 {
            None
        } else {
            let (a, err) = insert_carefully_spec(eqs[j].terms, consts);
            let eqs1 = eqs.update(j, with_terms(eqs[j], a));
            if err {
                Some((eqs1, current, true))
            } else if conflicts_spec(current, vars, consts) {
                Some((eqs1, current, true))
            } else {
                Some((eqs1, current.push(e), two_hits(eqs, vars)))
            }
        },
    }
}

proof fn lemma_first_eq_none(eqs: Seq<EqTermV>, v: Seq<char>, j: int)
    requires
        0 <= j,
        forall|k: int| j <= k < eqs.len() ==> !has_var(#[trigger] eqs[k], v),
    ensures
        first_eq_from(eqs, v, j) == None::<int>,
    decreases eqs.len() - j,
{
    if j < eqs.len() {
        lemma_first_eq_none(eqs, v, j + 1);
    }
}

proof fn lemma_first_eq_some(eqs: Seq<EqTermV>, v: Seq<char>, j: int, k: int)
    requires
        0 <= j <= k < eqs.len(),
        forall|l: int| j <= l < k ==> !has_var(#[trigger] eqs[l], v),
        has_var(eqs[k], v),
    ensures
        first_eq_from(eqs, v, j) == Some(k),
    decreases k - j,
{
    if j < k {
        lemma_first_eq_some(eqs, v, j + 1, k);
    }
}

proof fn lemma_first_hit_skip(eqs: Seq<EqTermV>, vars: Seq<TermV>, i: int, k: int)
    requires
        0 <= i <= k <= vars.len(),
        forall|a: int| i <= a < k ==> first_eq_from(eqs, #[trigger] vars[a].value, 0) == None::<int>,
    ensures
        first_hit_from(eqs, vars, i) == first_hit_from(eqs, vars, k),
    decreases k - i,
{
    if i < k {
        lemma_first_hit_skip(eqs, vars, i + 1, k);
    }
}

/// No name of `vars` before position `a` meets a variable of `eqs`, none of
/// `vars[a]` meets one before equation `j`, and equation `j` has one.
proof fn lemma_first_hit_at(eqs: Seq<EqTermV>, vars: Seq<TermV>, a: int, j: int, jj: int)
    requires
        is_hit(eqs, vars, a, j, jj),
        forall|a1: int, j1: int, jj1: int| #[trigger] is_hit(eqs, vars, a1, j1, jj1) ==> !(a1 < a || (a1 == a && j1 < j)),
    ensures
        first_hit_from(eqs, vars, 0) == Some(j),
{
    assert forall|a1: int| 0 <= a1 < a implies first_eq_from(eqs, #[trigger] vars[a1].value, 0) == None::<int> by {
        assert forall|k: int| 0 <= k < eqs.len() implies !has_var(#[trigger] eqs[k], vars[a1].value) by {
            if has_var(eqs[k], vars[a1].value) {
                let jj1 = choose|jj1: int| 0 <= jj1 < eqs[k].vars.len() && #[trigger] eqs[k].vars[jj1].value == vars[a1].value;
                assert(is_hit(eqs, vars, a1, k, jj1));
            }
        }
        lemma_first_eq_none(eqs, vars[a1].value, 0);
    }
    lemma_first_hit_skip(eqs, vars, 0, a);
    assert forall|k: int| 0 <= k < j implies !has_var(#[trigger] eqs[k], vars[a].value) by {
        if has_var(eqs[k], vars[a].value) {
            let jj1 = choose|jj1: int| 0 <= jj1 < eqs[k].vars.len() && #[trigger] eqs[k].vars[jj1].value == vars[a].value;
            assert(is_hit(eqs, vars, a, k, jj1));
        }
    }
    assert(eqs[j].vars[jj].value == vars[a].value);
    assert(has_var(eqs[j], vars[a].value));
    lemma_first_eq_some(eqs, vars[a].value, 0, j);
}

/// No name of `vars` meets a variable of `eqs`.
proof fn lemma_no_hit(eqs: Seq<EqTermV>, vars: Seq<TermV>)
    requires
        forall|a1: int, j1: int, jj1: int| !#[trigger] is_hit(eqs, vars, a1, j1, jj1),
    ensures
        first_hit_from(eqs, vars, 0) == None::<int>,
{
    assert forall|a1: int| 0 <= a1 < vars.len() implies first_eq_from(eqs, #[trigger] vars[a1].value, 0) == None::<int> by {
        assert forall|k: int| 0 <= k < eqs.len() implies !has_var(#[trigger] eqs[k], vars[a1].value) by {
            if has_var(eqs[k], vars[a1].value) {
                let jj1 = choose|jj1: int| 0 <= jj1 < eqs[k].vars.len() && #[trigger] eqs[k].vars[jj1].value == vars[a1].value;
                assert(is_hit(eqs, vars, a1, k, jj1));
            }
        }
        lemma_first_eq_none(eqs, vars[a1].value, 0);
    }
    lemma_first_hit_skip(eqs, vars, 0, vars.len() as int);
}

/// The state of [`insert_terms`] while it scans: nothing changed before the
/// first equation met, the first one updated after it.
spec fn scan_state(eqs0: Seq<EqTermV>, vars: Seq<TermV>, consts: Seq<TermV>, cur0: Seq<EqTermV>, eqs: Seq<EqTermV>, cur: Seq<EqTermV>, inserted: bool, a0: int, j0: int, jj0: int) -> bool {
    &&& eqs.len() == eqs0.len()
    &&& forall|k: int| 0 <= k < eqs.len() ==> (#[trigger] eqs[k]).vars == eqs0[k].vars
    &&& !inserted ==> eqs == eqs0 && cur == cur0
    &&& inserted ==> {
        &&& is_hit(eqs0, vars, a0, j0, jj0)
        &&& first_hit_from(eqs0, vars, 0) == Some(j0)
        &&& (eqs0[j0].terms.len() > 0 || consts.len() > 0)
        &&& !insert_carefully_spec(eqs0[j0].terms, consts).1
        &&& !conflicts_spec(cur0, vars, consts)
        &&& eqs == eqs0.update(j0, with_terms(eqs0[j0], insert_carefully_spec(eqs0[j0].terms, consts).0))
        &&& cur == cur0.push(new_eq(vars, consts))
    }
}

/// Every meeting of a name of `vars` with a variable of `eqs` before
/// position `(i, j, jj)` is the first one, `(a0, j0, jj0)`.
spec fn seen_hits(eqs0: Seq<EqTermV>, vars: Seq<TermV>, inserted: bool, a0: int, j0: int, jj0: int, i: int, j: int, jj: int) -> bool {
    &&& inserted ==> (a0 < i || (a0 == i && j0 < j) || (a0 == i && j0 == j && jj0 < jj))
    &&& forall|a: int, j1: int, jj1: int|
        #[trigger] is_hit(eqs0, vars, a, j1, jj1) && (a < i || (a == i && j1 < j) || (a == i && j1 == j && jj1 < jj))
            ==> inserted && a == a0 && j1 == j0 && jj1 == jj0
}

/// The value of a result of [`insert_terms`].
pub open spec fn eqs_pair_view(r: Option<(Vec<EqTerm>, Vec<EqTerm>, bool)>) -> Option<(Seq<EqTermV>, Seq<EqTermV>, bool)> {
    match r {
        Some((a, b, c)) => Some((eqs_view(a@), eqs_view(b@), c)),
        None => None,
    }
}

/// Records `vars = consts` (see [`insert_terms_spec`]).
#[verifier::loop_isolation(false)]
pub fn insert_terms(F: Vec<EqTerm>, vars: Vec<Term>, consts: Vec<Term>, current: Vec<EqTerm>) -> (res: Option<(Vec<EqTerm>, Vec<EqTerm>, bool)>)
    ensures
        eqs_pair_view(res) == insert_terms_spec(eqs_view(F@), terms_view(vars@), terms_view(consts@), eqs_view(current@)),
{
    let ghost f0 = eqs_view(F@);
    let ghost cur0 = eqs_view(current@);
    let ghost vv = terms_view(vars@);
    let ghost cv = terms_view(consts@);
    let mut F = F;
    let mut current = current;
    let mut inserted = false;
    let ghost mut a0: int = 0;
    let ghost mut j0: int = 0;
    let ghost mut jj0: int = 0;
    let n = F.len();
    let mut i: usize = 0;
    while i < vars.len()
        invariant
            i <= vars.len(),
            n == f0.len(),
            scan_state(f0, vv, cv, cur0, eqs_view(F@), eqs_view(current@), inserted, a0, j0, jj0),
            seen_hits(f0, vv, inserted, a0, j0, jj0, i as int, 0, 0),
        decreases vars.len() - i,
    {
        let mut j: usize = 0;
        while j < n
            invariant
                i < vars.len(),
                j <= n,
                n == f0.len(),
                scan_state(f0, vv, cv, cur0, eqs_view(F@), eqs_view(current@), inserted, a0, j0, jj0),
                seen_hits(f0, vv, inserted, a0, j0, jj0, i as int, j as int, 0),
            decreases n - j,
        {
            let m = F[j].vars.len();
            assert(eqs_view(F@)[j as int] == F@[j as int]@);
            let mut jj: usize = 0;
            while jj < m
                invariant
                    i < vars.len(),
                    j < n,
                    jj <= m,
                    n == f0.len(),
                    m == f0[j as int].vars.len(),
                    scan_state(f0, vv, cv, cur0, eqs_view(F@), eqs_view(current@), inserted, a0, j0, jj0),
                    seen_hits(f0, vv, inserted, a0, j0, jj0, i as int, j as int, jj as int),
                decreases m - jj,
            {
                assert(eqs_view(F@)[j as int] == F@[j as int]@);
                assert(eqs_view(F@)[j as int].vars[jj as int] == F@[j as int].vars@[jj as int]@);
                assert(vv[i as int] == vars@[i as int]@);
                if F[j].vars[jj].value == vars[i].value {
                    assert(is_hit(f0, vv, i as int, j as int, jj as int));
                    if inserted {
                        proof {
                            assert(is_hit(f0, vv, a0, j0, jj0));
                            assert(two_hits(f0, vv));
                        }
                        return Some((F, current, true));
                    }
                    proof {
                        lemma_first_hit_at(f0, vv, i as int, j as int, jj as int);
                    }
                    if F[j].terms.len() == 0 && consts.len() == 0 {
                        return None;
                    }
                    let old_terms = clone_terms(&F[j].terms);
                    let (a, err) = insert_carefully(old_terms, clone_terms(&consts));
                    let ghost fa = eqs_view(F@);
                    let entry = EqTerm { instances: F[j].instances, vars: clone_terms(&F[j].vars), terms: a };
                    F.set(j, entry);
                    assert(eqs_view(F@) =~= fa.update(j as int, with_terms(fa[j as int], terms_view(entry.terms@))));
                    if err {
                        return Some((F, current, true));
                    }
                    let err = conflicts(clone_eqs(&current), clone_terms(&vars), clone_terms(&consts));
                    if err {
                        return Some((F, current, true));
                    }
                    let ghost cb = eqs_view(current@);
                    let e = EqTerm { instances: 0, vars: clone_terms(&vars), terms: clone_terms(&consts) };
                    current.push(e);
                    assert(eqs_view(current@) =~= cb.push(new_eq(vv, cv)));
                    inserted = true;
                    proof {
                        a0 = i as int;
                        j0 = j as int;
                        jj0 = jj as int;
                    }
                }
                jj += 1;
            }
            j += 1;
        }
        i += 1;
    }
    if !inserted {
        proof {
            lemma_no_hit(f0, vv);
        }
        let err = conflicts(clone_eqs(&current), clone_terms(&vars), clone_terms(&consts));
        if err {
            return Some((F, current, true));
        }
        let ghost cb = eqs_view(current@);
        let ghost fb = eqs_view(F@);
        let e1 = EqTerm { instances: 0, vars: clone_terms(&vars), terms: clone_terms(&consts) };
        current.push(e1);
        let e2 = EqTerm { instances: 0, vars, terms: consts };
        F.push(e2);
        assert(eqs_view(current@) =~= cb.push(new_eq(vv, cv)));
        assert(eqs_view(F@) =~= fb.push(new_eq(vv, cv)));
        return Some((F, current, false));
    }
    proof {
        if two_hits(f0, vv) {
            let (a1, j1, jj1, a2, j2, jj2) = choose|a1: int, j1: int, jj1: int, a2: int, j2: int, jj2: int|
                #[trigger] is_hit(f0, vv, a1, j1, jj1) && #[trigger] is_hit(f0, vv, a2, j2, jj2) && (a1 != a2 || j1 != j2 || jj1 != jj2);
            assert(is_hit(f0, vv, a1, j1, jj1));
            assert(is_hit(f0, vv, a2, j2, jj2));
        }
    }
    Some((F, current, false))
}
/// The number of terms of `vs` named `v`.
pub open spec fn count_named(vs: Seq<TermV>, v: Seq<char>) -> int
    decreases vs.len(),
{
    if vs.len() == 0 {
        0
    } else {
        count_named(vs.drop_last(), v) + if vs.last().value == v { 1int } else { 0int }
    }
}

/// `e` counted once more for each of its variables named `v`.
pub open spec fn bumped(e: EqTermV, v: Seq<char>) -> EqTermV {
    EqTermV { instances: e.instances + count_named(e.vars, v), vars: e.vars, terms: e.terms }
}

pub open spec fn bump_all(eqs: Seq<EqTermV>, v: Seq<char>) -> Seq<EqTermV> {
    eqs.map_values(|e: EqTermV| bumped(e, v))
}

/// Some equation of `eqs` has a variable named `v`.
pub open spec fn names_var(eqs: Seq<EqTermV>, v: Seq<char>) -> bool {
    exists|i: int| 0 <= i < eqs.len() && has_var(#[trigger] eqs[i], v)
}

/// The equation of a variable met for the first time.
pub open spec fn fresh_eq(t: TermV) -> EqTermV {
    EqTermV { instances: 1, vars: seq![t], terms: Seq::empty() }
}

/// Counting the variables of `t`: each occurrence of a variable adds, to
/// every equation, the number of its variables of that name; a variable that
/// no equation names gets an equation of its own.
pub open spec fn fill_eq_spec(eqs: Seq<EqTermV>, t: TermV) -> Seq<EqTermV>
    decreases t,
{
    if t.var == 1 {
        if names_var(eqs, t.value) {
            bump_all(eqs, t.value)
        } else {
            eqs.push(fresh_eq(t))
        }
    } else if t.var == 2 {
        let u1 = match t.left {
            Some(l) => fill_eq_spec(eqs, *l),
            None => eqs,
        };
        match t.right {
            Some(r) => fill_eq_spec(u1, *r),
            None => u1,
        }
    } else {
        eqs
    }
}

/// Every count fits an `i32`.
pub open spec fn counts_fit(eqs: Seq<EqTermV>) -> bool {
    forall|i: int| 0 <= i < eqs.len() ==> (#[trigger] eqs[i]).instances <= i32::MAX
}

/// `b` is `a` counted further: no count goes down and new equations count
/// at least one.
pub open spec fn grows(a: Seq<EqTermV>, b: Seq<EqTermV>) -> bool {
    &&& a.len() <= b.len()
    &&& forall|k: int| 0 <= k < a.len() ==> (#[trigger] b[k]).instances >= a[k].instances
    &&& forall|k: int| a.len() <= k < b.len() ==> (#[trigger] b[k]).instances >= 1
}

proof fn lemma_count_nonneg(vs: Seq<TermV>, v: Seq<char>)
    ensures
        count_named(vs, v) >= 0,
    decreases vs.len(),
{
    if vs.len() > 0 {
        lemma_count_nonneg(vs.drop_last(), v);
    }
}

proof fn lemma_count_prefix(vs: Seq<TermV>, v: Seq<char>, j: int)
    requires
        0 <= j <= vs.len(),
    ensures
        count_named(vs.take(j), v) <= count_named(vs, v),
    decreases vs.len() - j,
{
    if j < vs.len() {
        lemma_count_prefix(vs, v, j + 1);
        assert(vs.take(j + 1).drop_last() =~= vs.take(j));
    } else {
        assert(vs.take(j) =~= vs);
    }
}

pub proof fn lemma_grows_trans(a: Seq<EqTermV>, b: Seq<EqTermV>, c: Seq<EqTermV>)
    requires
        grows(a, b),
        grows(b, c),
    ensures
        grows(a, c),
{
    assert forall|k: int| 0 <= k < a.len() implies (#[trigger] c[k]).instances >= a[k].instances by {
        assert(c[k].instances >= b[k].instances);
    }
    assert forall|k: int| a.len() <= k < c.len() implies (#[trigger] c[k]).instances >= 1 by {
        if k < b.len() {
            assert(c[k].instances >= b[k].instances);
        }
    }
}

pub proof fn lemma_fill_grows(eqs: Seq<EqTermV>, t: TermV)
    ensures
        grows(eqs, fill_eq_spec(eqs, t)),
    decreases t,
{
    if t.var == 1 {
        if names_var(eqs, t.value) {
            assert forall|k: int| 0 <= k < eqs.len() implies (#[trigger] bump_all(eqs, t.value)[k]).instances >= eqs[k].instances by {
                lemma_count_nonneg(eqs[k].vars, t.value);
            }
        }
    } else if t.var == 2 {
        let u1 = match t.left {
            Some(l) => fill_eq_spec(eqs, *l),
            None => eqs,
        };
        match t.left {
            Some(l) => lemma_fill_grows(eqs, *l),
            None => {},
        }
        match t.right {
            Some(r) => {
                lemma_fill_grows(u1, *r);
                lemma_grows_trans(eqs, u1, fill_eq_spec(u1, *r));
            },
            None => {},
        }
    }
}

pub proof fn lemma_unfit_grows(a: Seq<EqTermV>, b: Seq<EqTermV>)
    requires
        grows(a, b),
        !counts_fit(a),
    ensures
        !counts_fit(b),
{
    let k = choose|k: int| 0 <= k < a.len() && !((#[trigger] a[k]).instances <= i32::MAX);
    assert(b[k].instances >= a[k].instances);
}

/// Counts the variables of `term` in the equations `U` (see
/// [`fill_eq_spec`]); `None` when a count goes past `i32::MAX`.
pub fn fill_eq(U: Vec<EqTerm>, term: Term) -> (res: Option<Vec<EqTerm>>)
    ensures
        match res {
            Some(r) => counts_fit(fill_eq_spec(eqs_view(U@), term@)) && eqs_view(r@) == fill_eq_spec(eqs_view(U@), term@),
            None => !counts_fit(fill_eq_spec(eqs_view(U@), term@)),
        },
    decreases term,
{
    let ghost u0 = eqs_view(U@);
    let ghost t0 = term@;
    if term.var == 1 {
        let ghost v = t0.value;
        let mut out: Vec<EqTerm> = Vec::new();
        let mut found = false;
        let mut i: usize = 0;
        while i < U.len()
            invariant
                i <= U.len(),
                u0 == eqs_view(U@),
                t0 == term@,
                v == t0.value,
                t0.var == 1,
                eqs_view(out@) == bump_all(u0, v).take(i as int),
                found == exists|k: int| 0 <= k < i && has_var(#[trigger] u0[k], v),
            decreases U.len() - i,
        {
            let e = &U[i];
            assert(u0[i as int] == e@);
            let ghost ev = e@;
            let mut inst: i32 = e.instances;
            let mut j: usize = 0;
            while j < e.vars.len()
                invariant
                    i < U.len(),
                    e == U@[i as int],
                    ev == e@,
                    u0 == eqs_view(U@),
                    u0[i as int] == ev,
                    t0 == term@,
                    v == t0.value,
                    t0.var == 1,
                    j <= e.vars.len(),
                    inst == ev.instances + count_named(ev.vars.take(j as int), v),
                    found == ((exists|k: int| 0 <= k < i && has_var(#[trigger] u0[k], v)) || (exists|jj: int| 0 <= jj < j && #[trigger] ev.vars[jj].value == v)),
                decreases e.vars.len() - j,
            {
                assert(ev.vars.take(j + 1).drop_last() =~= ev.vars.take(j as int));
                assert(ev.vars[j as int] == e.vars@[j as int]@);
                if e.vars[j].value == term.value {
                    assert(e.vars@[j as int].value@ == term.value@);
                    assert(v == term.value@);
                    assert(ev.vars[j as int].value == e.vars@[j as int].value@);
                    assert(ev.vars[j as int].value == v);
                    assert(has_var(u0[i as int], v));
                    assert(names_var(u0, v));
                    if inst == i32::MAX {
                        proof {
                            lemma_count_prefix(ev.vars, v, j + 1);
                            assert(bump_all(u0, v)[i as int].instances > i32::MAX);
                        }
                        return None;
                    }
                    inst = inst + 1;
                    found = true;
                }
                j += 1;
            }
            assert(ev.vars.take(j as int) =~= ev.vars);
            let ghost prev = eqs_view(out@);
            let ne = EqTerm { instances: inst, vars: clone_terms(&e.vars), terms: clone_terms(&e.terms) };
            out.push(ne);
            assert(eqs_view(out@) =~= prev.push(ne@));
            assert(bump_all(u0, v).take(i + 1) =~= bump_all(u0, v).take(i as int).push(bumped(u0[i as int], v)));
            proof {
                if found {
                    assert(exists|k: int| 0 <= k < i + 1 && has_var(#[trigger] u0[k], v));
                }
                if exists|k: int| 0 <= k < i + 1 && has_var(#[trigger] u0[k], v) {
                    let k = choose|k: int| 0 <= k < i + 1 && has_var(#[trigger] u0[k], v);
                    if k == i {
                        let jj = choose|jj: int| 0 <= jj < ev.vars.len() && #[trigger] ev.vars[jj].value == v;
                        assert(found);
                    }
                }
            }
            i += 1;
        }
        assert(bump_all(u0, v).take(i as int) =~= bump_all(u0, v));
        if !found {
            let ghost prev = eqs_view(U@);
            let mut U = U;
            let fresh = EqTerm { instances: 1, vars: vec![term], terms: Vec::new() };
            assert(fresh@.vars =~= seq![t0]);
            assert(fresh@.terms =~= Seq::<TermV>::empty());
            U.push(fresh);
            assert(eqs_view(U@) =~= prev.push(fresh_eq(t0)));
            return Some(U);
        }
        assert(names_var(u0, v));
        assert forall|k: int| 0 <= k < out@.len() implies (#[trigger] eqs_view(out@)[k]).instances <= i32::MAX by {
            assert(eqs_view(out@)[k] == out@[k]@);
        }
        return Some(out);
    } else if term.var == 2 {
        let Term { value: _, var: _, left, right } = term;
        let mut U = U;
        let ghost u1 = match t0.left {
            Some(l) => fill_eq_spec(u0, *l),
            None => u0,
        };
        match left {
            Some(l) => {
                let r = fill_eq(U, *l);
                match r {
                    None => {
                        proof {
                            match t0.right {
                                Some(rr) => {
                                    lemma_fill_grows(u1, *rr);
                                    lemma_unfit_grows(u1, fill_eq_spec(u1, *rr));
                                },
                                None => {},
                            }
                        }
                        return None;
                    },
                    Some(u) => {
                        U = u;
                    },
                }
            },
            None => {},
        }
        assert(eqs_view(U@) == u1);
        match right {
            Some(x) => {
                let r = fill_eq(U, *x);
                return r;
            },
            None => {},
        }
        assert forall|k: int| 0 <= k < U@.len() implies (#[trigger] eqs_view(U@)[k]).instances <= i32::MAX by {
            assert(eqs_view(U@)[k] == U@[k]@);
        }
        return Some(U);
    }
    assert forall|k: int| 0 <= k < U@.len() implies (#[trigger] eqs_view(U@)[k]).instances <= i32::MAX by {
        assert(eqs_view(U@)[k] == U@[k]@);
    }
    Some(U)
}

/// Whether two lists of terms are equal.
pub fn terms_eq(a: &Vec<Term>, b: &Vec<Term>) -> (res: bool)
    ensures
        res == (terms_view(a@) == terms_view(b@)),
{
    if a.len() != b.len() {
        assert(terms_view(a@).len() != terms_view(b@).len());
        return false;
    }
    let mut i: usize = 0;
    while i < a.len()
        invariant
            i <= a.len(),
            a.len() == b.len(),
            forall|k: int| 0 <= k < i ==> terms_view(a@)[k] == terms_view(b@)[k],
        decreases a.len() - i,
    {
        if !crate::normalize::regex::term_eq(&a[i], &b[i]) {
            assert(terms_view(a@)[i as int] != terms_view(b@)[i as int]);
            return false;
        }
        i += 1;
    }
    assert(terms_view(a@) =~= terms_view(b@));
    true
}

/// The name that marks a removed equation.
pub open spec fn skull_text() -> Seq<char> {
    seq!['\u{1F480}']
}

/// An equation that survives removing the equation of `vars`.
pub open spec fn kept(e: EqTermV, vars: Seq<TermV>) -> bool {
    e.vars != vars && e.vars[0].value != skull_text()
}

pub open spec fn kept_pred(vars: Seq<TermV>) -> spec_fn(EqTermV) -> bool {
    |e: EqTermV| kept(e, vars)
}

/// The equations of `eqs` other than those on exactly the variables `vars`,
/// and other than those whose first variable is the removal mark.
pub open spec fn remove_spec(eqs: Seq<EqTermV>, vars: Seq<TermV>) -> Seq<EqTermV> {
    eqs.filter(kept_pred(vars))
}

/// Every equation of `eqs` is on `vars` or has a variable.
pub open spec fn removable(eqs: Seq<EqTermV>, vars: Seq<TermV>) -> bool {
    forall|k: int| 0 <= k < eqs.len() ==> (#[trigger] eqs[k]).vars == vars || eqs[k].vars.len() > 0
}

/// Removes the equations on exactly the variables of `term`.
pub fn remove_from_EqTerm(F: Vec<EqTerm>, term: EqTerm) -> (res: Vec<EqTerm>)
    requires
        removable(eqs_view(F@), term@.vars),
    ensures
        eqs_view(res@) == remove_spec(eqs_view(F@), term@.vars),
{
    let ghost f0 = eqs_view(F@);
    let ghost tv = term@.vars;
    let sk = crate::text::char_string('\u{1F480}');
    let mut out: Vec<EqTerm> = Vec::new();
    let mut i: usize = 0;
    while i < F.len()
        invariant
            i <= F.len(),
            f0 == eqs_view(F@),
            tv == term@.vars,
            sk@ == skull_text(),
            removable(f0, tv),
            eqs_view(out@) == remove_spec(f0.take(i as int), tv),
        decreases F.len() - i,
    {
        let e = &F[i];
        assert(f0[i as int] == e@);
        assert(f0.take(i + 1) =~= f0.take(i as int).push(f0[i as int]));
        proof {
            f0.take(i as int).lemma_filter_push(f0[i as int], kept_pred(tv));
        }
        let ghost prev = eqs_view(out@);
        if terms_eq(&e.vars, &term.vars) {
            assert(!kept(f0[i as int], tv));
        } else {
            assert(e.vars@.len() > 0);
            assert(f0[i as int].vars[0] == e.vars@[0]@);
            if e.vars[0].value == sk {
                assert(!kept(f0[i as int], tv));
            } else {
                assert(kept(f0[i as int], tv));
                let c = clone_eq(e);
                out.push(c);
                assert(eqs_view(out@) =~= prev.push(c@));
            }
        }
        i += 1;
    }
    assert(f0.take(i as int) =~= f0);
    out
}

/// Some term of `vars` is named `v`.
pub open spec fn names(vars: Seq<TermV>, v: Seq<char>) -> bool {
    exists|i: int| 0 <= i < vars.len() && #[trigger] vars[i].value == v
}

/// `what` with every variable named in `vars` replaced by `to`.
pub open spec fn subst(to: TermV, vars: Seq<TermV>, what: TermV) -> TermV
    decreases what,
{
    if what.var == 1 {
        if names(vars, what.value) {
            to
        } else {
            what
        }
    } else if what.var == 2 {
        TermV {
            value: what.value,
            var: what.var,
            left: match what.left {
                Some(l) => Some(Box::new(subst(to, vars, *l))),
                None => None,
            },
            right: match what.right {
                Some(r) => Some(Box::new(subst(to, vars, *r))),
                None => None,
            },
        }
    } else {
        what
    }
}

/// Replaces the variables named in `vars` by `to` (see [`subst`]).
fn subst_term(to: &Term, vars: &Vec<Term>, what: Term) -> (res: Term)
    ensures
        res@ == subst(to@, terms_view(vars@), what@),
    decreases what,
{
    let ghost w = what@;
    if what.var == 1 {
        let mut hit = false;
        let mut i: usize = 0;
        while i < vars.len()
            invariant
                i <= vars.len(),
                w == what@,
                hit == exists|k: int| 0 <= k < i && #[trigger] terms_view(vars@)[k].value == w.value,
            decreases vars.len() - i,
        {
            assert(terms_view(vars@)[i as int] == vars@[i as int]@);
            if vars[i].value == what.value {
                assert(terms_view(vars@)[i as int].value == w.value);
                hit = true;
            }
            i += 1;
        }
        if hit {
            return clone_term(to);
        }
        return what;
    } else if what.var == 2 {
        let Term { value, var, left, right } = what;
        let left = match left {
            Some(l) => Some(Box::new(subst_term(to, vars, *l))),
            None => None,
        };
        let right = match right {
            Some(r) => Some(Box::new(subst_term(to, vars, *r))),
            None => None,
        };
        return Term { value, var, left, right };
    }
    what
}

/// Replaces the variables named in `vars` by `to`; always `Some`.
pub fn sub_unify(to: Term, vars: Vec<Term>, what: Term) -> (res: Option<Box<Term>>)
    ensures
        res matches Some(b) && term_view(*b) == subst(to@, terms_view(vars@), what@),
{
    Some(Box::new(subst_term(&to, &vars, what)))
}

/// Equation `j` of `eqs` with its first value solved by equation `i`.
pub open spec fn solved_by(eqs: Seq<EqTermV>, i: int, j: int) -> EqTermV {
    with_terms(eqs[j], seq![subst(eqs[i].terms[0], eqs[i].vars, eqs[j].terms[0])])
}

/// Every equation before `i` solved by equation `i`.
pub open spec fn magic_step(eqs: Seq<EqTermV>, i: int) -> Seq<EqTermV> {
    Seq::new(eqs.len(), |j: int| if j < i { solved_by(eqs, i, j) } else { eqs[j] })
}

/// Back substitution over the first `k` equations: the last one solves all
/// before it, then the one before it, and so on.
pub open spec fn magic_from(eqs: Seq<EqTermV>, k: int) -> Seq<EqTermV>
    decreases k,
{
    if k <= 1 {
        eqs
    } else {
        magic_from(magic_step(eqs, k - 1), k - 1)
    }
}

pub open spec fn magic_spec(eqs: Seq<EqTermV>) -> Seq<EqTermV> {
    magic_from(eqs, eqs.len() as int)
}

/// Every equation of `eqs` has a value.
pub open spec fn all_valued(eqs: Seq<EqTermV>) -> bool {
    forall|k: int| 0 <= k < eqs.len() ==> (#[trigger] eqs[k]).terms.len() > 0
}

/// Solves the equations by back substitution (see [`magic_from`]).
pub fn magic(T: Vec<EqTerm>) -> (res: Vec<EqTerm>)
    requires
        T@.len() > 1 ==> all_valued(eqs_view(T@)),
    ensures
        eqs_view(res@) == magic_spec(eqs_view(T@)),
{
    let ghost t0 = eqs_view(T@);
    let mut T = T;
    let mut i: usize = T.len();
    while i > 1
        invariant
            i <= T.len(),
            T@.len() == t0.len(),
            t0.len() > 1 ==> all_valued(eqs_view(T@)),
            magic_from(eqs_view(T@), i as int) == magic_spec(t0),
        decreases i,
    {
        i -= 1;
        let ghost ts = eqs_view(T@);
        assert(ts[i as int] == T@[i as int]@);
        assert(ts[i as int].terms[0] == T@[i as int].terms@[0]@);
        let to = clone_term(&T[i].terms[0]);
        let vs = clone_terms(&T[i].vars);
        let mut j: usize = i;
        while j > 0
            invariant
                j <= i < T@.len(),
                T@.len() == ts.len(),
                t0.len() > 1,
                all_valued(ts),
                to@ == ts[i as int].terms[0],
                terms_view(vs@) == ts[i as int].vars,
                forall|k: int| 0 <= k < ts.len() ==> #[trigger] eqs_view(T@)[k] == if j <= k < i { solved_by(ts, i as int, k) } else { ts[k] },
            decreases j,
        {
            j -= 1;
            assert(eqs_view(T@)[j as int] == T@[j as int]@);
            assert(T@[j as int]@.terms[0] == T@[j as int].terms@[0]@);
            let w = clone_term(&T[j].terms[0]);
            let b = subst_term(&to, &vs, w);
            let e = EqTerm { instances: T[j].instances, vars: clone_terms(&T[j].vars), terms: vec![b] };
            assert(e@.terms =~= seq![b@]);
            let ghost before = eqs_view(T@);
            T.set(j, e);
            assert forall|k: int| 0 <= k < ts.len() implies #[trigger] eqs_view(T@)[k] == if j <= k < i { solved_by(ts, i as int, k) } else { ts[k] } by {
                if k != j {
                    assert(eqs_view(T@)[k] == before[k]);
                }
            }
        }
        assert(eqs_view(T@) =~= magic_step(ts, i as int));
        assert forall|k: int| 0 <= k < eqs_view(T@).len() implies (#[trigger] eqs_view(T@)[k]).terms.len() > 0 by {
            assert(eqs_view(T@)[k] == magic_step(ts, i as int)[k]);
        }
    }
    T
}

} // verus!
