//! Solving the equations of a unification, and rewriting an expression by
//! the first rule whose left side unifies with one of its subexpressions.
use vstd::prelude::*;
use crate::normalize::regex::{Term, TermV, terms_view, clone_term, clone_terms, with_left};
use crate::normalize::unify::{
    EqTerm, EqTermV, Rule, RuleV, rules_view, clone_rule, eqs_view, clone_eq, clone_eqs, fill_eq, fill_eq_spec, counts_fit, grows,
    lemma_fill_grows, lemma_grows_trans, lemma_unfit_grows, removable, remove_spec, remove_from_EqTerm,
    magic, magic_spec, magic_from, all_valued, with_terms,
};
use crate::normalize::separate::{separateCF, sep_spec, with_right};

verus! {

/// `eqs` with every count set to zero.
pub open spec fn reset(eqs: Seq<EqTermV>) -> Seq<EqTermV> {
    eqs.map_values(|e: EqTermV| EqTermV { instances: 0, vars: e.vars, terms: e.terms })
}

/// Counting the variables of the terms `ts` in turn (see [`fill_eq_spec`]).
pub open spec fn fill_all(eqs: Seq<EqTermV>, ts: Seq<TermV>) -> Seq<EqTermV>
    decreases ts.len(),
{
    if ts.len() == 0 {
        eqs
    } else {
        fill_eq_spec(fill_all(eqs, ts.drop_last()), ts.last())
    }
}

/// Counting the variables of the values of the first `i` equations of `u`.
pub open spec fn fill_rows(eqs: Seq<EqTermV>, u: Seq<EqTermV>, i: int) -> Seq<EqTermV>
    decreases i,
{
    if i <= 0 {
        eqs
    } else {
        fill_all(fill_rows(eqs, u, i - 1), u[i - 1].terms)
    }
}

/// The equations `u` counted afresh: how often the variables of each occur
/// in the values of all of them.
pub open spec fn recount(u: Seq<EqTermV>) -> Seq<EqTermV> {
    fill_rows(reset(u), u, u.len() as int)
}

/// The first equation from index `i` on whose variables occur nowhere.
pub open spec fn first_zero_from(eqs: Seq<EqTermV>, i: int) -> Option<int>
    decreases eqs.len() - i,
{
    if i < 0 || i >= eqs.len() {
        None
    } else if eqs[i].instances == 0 {
        Some(i)
    } else {
        first_zero_from(eqs, i + 1)
    }
}

/// One step of solving the equations `u` (which `eqs` records too) into the
/// solved list `t`: after counting, the first equation whose variables occur
/// nowhere is solved. With one value it moves to `t` and leaves `eqs`; with
/// several, the values are split (see [`sep_spec`]) and the skeleton goes to
/// `t`. Without such an equation the step fails, unless there are no
/// equations. `None`: a count overflows or an index goes out of range.
pub open spec fn getcf_spec(u: Seq<EqTermV>, eqs: Seq<EqTermV>, t: Seq<EqTermV>, cur: Seq<EqTermV>) -> Option<(Seq<EqTermV>, Seq<EqTermV>, Seq<EqTermV>, bool)> {
    let r = recount(u);
    if !counts_fit(r) {
        None
    } else {
        match first_zero_from(r, 0) {
            None => Some((eqs, t, cur, r.len() > 0)),
            Some(i) => if r[i].terms.len() == 1 {
                if removable(eqs, r[i].vars) {
                    Some((remove_spec(eqs, r[i].vars), t.push(r[i]), cur, false))
                } else {
                    None
                }
            } else {
                match sep_spec(r[i].terms, eqs, cur) {
                    None => None,
                    Some((c, e1, c1, err)) => if err {
                        Some((e1, t, c1, true))
                    } else if !removable(r, r[i].vars) {
                        None
                    } else {
                        Some((e1, t.push(EqTermV { instances: 0, vars: r[i].vars, terms: seq![c] }), c1, false))
                    },
                }
            },
        }
    }
}

proof fn lemma_fill_all_grows(eqs: Seq<EqTermV>, ts: Seq<TermV>, k: int)
    requires
        0 <= k <= ts.len(),
    ensures
        grows(fill_all(eqs, ts.take(k)), fill_all(eqs, ts)),
    decreases ts.len(),
{
    if k == ts.len() {
        assert(ts.take(k) =~= ts);
    } else {
        lemma_fill_all_grows(eqs, ts.drop_last(), k);
        assert(ts.drop_last().take(k) =~= ts.take(k));
        lemma_fill_grows(fill_all(eqs, ts.drop_last()), ts.last());
        lemma_grows_trans(fill_all(eqs, ts.take(k)), fill_all(eqs, ts.drop_last()), fill_all(eqs, ts));
    }
}

proof fn lemma_fill_rows_grows(eqs: Seq<EqTermV>, u: Seq<EqTermV>, i: int, n: int)
    requires
        0 <= i <= n,
    ensures
        grows(fill_rows(eqs, u, i), fill_rows(eqs, u, n)),
    decreases n - i,
{
    if i < n {
        lemma_fill_rows_grows(eqs, u, i + 1, n);
        lemma_fill_all_grows(fill_rows(eqs, u, i), u[i].terms, 0);
        assert(u[i].terms.take(0) =~= Seq::<TermV>::empty());
        lemma_grows_trans(fill_rows(eqs, u, i), fill_rows(eqs, u, i + 1), fill_rows(eqs, u, n));
    }
}

proof fn lemma_first_zero_at(eqs: Seq<EqTermV>, j: int, i: int)
    requires
        0 <= j <= i < eqs.len(),
        forall|k: int| j <= k < i ==> (#[trigger] eqs[k]).instances != 0,
        eqs[i].instances == 0,
    ensures
        first_zero_from(eqs, j) == Some(i),
    decreases i - j,
{
    if j < i {
        lemma_first_zero_at(eqs, j + 1, i);
    }
}

proof fn lemma_no_zero(eqs: Seq<EqTermV>, j: int)
    requires
        0 <= j,
        forall|k: int| j <= k < eqs.len() ==> (#[trigger] eqs[k]).instances != 0,
    ensures
        first_zero_from(eqs, j) == None::<int>,
    decreases eqs.len() - j,
{
    if j < eqs.len() {
        lemma_no_zero(eqs, j + 1);
    }
}

/// Whether every equation of `eqs` is on `vars` or has a variable.
fn removable_exec(eqs: &Vec<EqTerm>, vars: &Vec<Term>) -> (res: bool)
    ensures
        res == removable(eqs_view(eqs@), terms_view(vars@)),
{
    let ghost ev = eqs_view(eqs@);
    let mut i: usize = 0;
    while i < eqs.len()
        invariant
            i <= eqs.len(),
            ev == eqs_view(eqs@),
            forall|k: int| 0 <= k < i ==> (#[trigger] ev[k]).vars == terms_view(vars@) || ev[k].vars.len() > 0,
        decreases eqs.len() - i,
    {
        assert(ev[i as int] == eqs@[i as int]@);
        if eqs[i].vars.len() == 0 && !crate::normalize::unify::terms_eq(&eqs[i].vars, vars) {
            return false;
        }
        i += 1;
    }
    true
}

/// The value of a result of [`getCF`].
pub open spec fn getcf_view(r: Option<(Vec<EqTerm>, Vec<EqTerm>, Vec<EqTerm>, bool)>) -> Option<(Seq<EqTermV>, Seq<EqTermV>, Seq<EqTermV>, bool)> {
    match r {
        Some((a, b, c, d)) => Some((eqs_view(a@), eqs_view(b@), eqs_view(c@), d)),
        None => None,
    }
}

/// Counts the equations afresh (see [`recount`]); `None` when a count
/// overflows.
#[verifier::loop_isolation(false)]
fn recount_exec(U: &Vec<EqTerm>) -> (res: Option<Vec<EqTerm>>)
    ensures
        match res {
            Some(s) => eqs_view(s@) == recount(eqs_view(U@)),
            None => !counts_fit(recount(eqs_view(U@))),
        },
{
    let ghost u = eqs_view(U@);
    let mut s: Vec<EqTerm> = Vec::new();
    let mut i: usize = 0;
    while i < U.len()
        invariant
            i <= U.len(),
            u == eqs_view(U@),
            eqs_view(s@) == reset(u).take(i as int),
        decreases U.len() - i,
    {
        assert(u[i as int] == U@[i as int]@);
        let e = EqTerm { instances: 0, vars: clone_terms(&U[i].vars), terms: clone_terms(&U[i].terms) };
        let ghost prev = eqs_view(s@);
        s.push(e);
        assert(eqs_view(s@) =~= prev.push(e@));
        assert(reset(u).take(i + 1) =~= reset(u).take(i as int).push(reset(u)[i as int]));
        i += 1;
    }
    assert(reset(u).take(i as int) =~= reset(u));
    let ghost base = reset(u);
    let n = U.len();
    let mut i: usize = 0;
    while i < n
        invariant
            i <= n,
            n == u.len(),
            u == eqs_view(U@),
            eqs_view(s@) == fill_rows(base, u, i as int),
        decreases n - i,
    {
        let row = &U[i].terms;
        assert(u[i as int].terms == terms_view(row@));
        let ghost tv = terms_view(row@);
        let ghost start = fill_rows(base, u, i as int);
        let mut j: usize = 0;
        while j < row.len()
            invariant
                i < n,
                j <= row.len(),
                tv == terms_view(row@),
                tv == u[i as int].terms,
                eqs_view(s@) == fill_all(start, tv.take(j as int)),
            decreases row.len() - j,
        {
            assert(tv.take(j + 1).drop_last() =~= tv.take(j as int));
            assert(tv[j as int] == row@[j as int]@);
            let t = clone_term(&row[j]);
            match fill_eq(s, t) {
                None => {
                    proof {
                        lemma_fill_all_grows(start, tv, j + 1);
                        lemma_unfit_grows(fill_all(start, tv.take(j + 1)), fill_all(start, tv));
                        lemma_fill_rows_grows(base, u, i + 1, n as int);
                        lemma_unfit_grows(fill_rows(base, u, i + 1), fill_rows(base, u, n as int));
                    }
                    return None;
                },
                Some(s1) => {
                    s = s1;
                },
            }
            j += 1;
        }
        assert(tv.take(j as int) =~= tv);
        i += 1;
    }
    Some(s)
}

/// One step of solving the equations (see [`getcf_spec`]).
#[verifier::loop_isolation(false)]
pub fn getCF(U: Vec<EqTerm>, F: Vec<EqTerm>, T: Vec<EqTerm>, current: Vec<EqTerm>) -> (res: Option<(Vec<EqTerm>, Vec<EqTerm>, Vec<EqTerm>, bool)>)
    ensures
        getcf_view(res) == getcf_spec(eqs_view(U@), eqs_view(F@), eqs_view(T@), eqs_view(current@)),
{
    let ghost u = eqs_view(U@);
    let s = match recount_exec(&U) {
        None => {
            return None;
        },
        Some(s) => s,
    };
    let ghost r = recount(u);
    assert forall|k: int| 0 <= k < r.len() implies (#[trigger] r[k]).instances <= i32::MAX by {
        assert(r[k] == s@[k]@);
    }
    let ghost t0 = eqs_view(T@);
    let mut T = T;
    let mut i: usize = 0;
    while i < s.len()
        invariant
            i <= s.len(),
            eqs_view(T@) == t0,
            r == eqs_view(s@),
            forall|k: int| 0 <= k < i ==> (#[trigger] r[k]).instances != 0,
        decreases s.len() - i,
    {
        assert(r[i as int] == s@[i as int]@);
        if s[i].instances == 0 {
            proof {
                lemma_first_zero_at(r, 0, i as int);
            }
            if s[i].terms.len() == 1 {
                if !removable_exec(&F, &s[i].vars) {
                    return None;
                }
                let e = clone_eq(&s[i]);
                let ghost tb = eqs_view(T@);
                T.push(e);
                assert(eqs_view(T@) =~= tb.push(r[i as int]));
                let f1 = remove_from_EqTerm(F, clone_eq(&s[i]));
                return Some((f1, T, current, false));
            }
            let sep = separateCF(clone_terms(&s[i].terms), F, current);
            let (c, f1, c1, err) = match sep {
                None => {
                    return None;
                },
                Some(x) => x,
            };
            if err {
                return Some((f1, T, c1, true));
            }
            if !removable_exec(&s, &s[i].vars) {
                return None;
            }
            let e = EqTerm { instances: 0, vars: clone_terms(&s[i].vars), terms: vec![c] };
            assert(e@.terms =~= seq![c@]);
            let ghost tb = eqs_view(T@);
            T.push(e);
            assert(eqs_view(T@) =~= tb.push(EqTermV { instances: 0, vars: r[i as int].vars, terms: seq![c@] }));
            return Some((f1, T, c1, false));
        }
        i += 1;
    }
    proof {
        lemma_no_zero(r, 0);
    }
    Some((F, T, current, s.len() > 0))
}

/// Why a rewriting could not be carried out.
#[derive(Clone, Copy, Debug, PartialEq, Eq)]
pub enum UnifyError {
    /// A step indexes out of range or overflows a count.
    Undefined,
    /// Solving the equations took more steps than allowed.
    OutOfFuel,
}

/// The name of the equation between the expression and the left side.
pub open spec fn heart_text() -> Seq<char> {
    seq!['\u{2665}']
}

/// The first equation: the expression `reg` equals the left side `left`.
pub open spec fn start_eqs(reg: TermV, left: TermV) -> Seq<EqTermV> {
    seq![EqTermV { instances: 0, vars: seq![TermV { value: heart_text(), var: 0, left: None, right: None }], terms: seq![reg, left] }]
}

/// Solving the equations `u` step by step (see [`getcf_spec`]), at most
/// `fuel` steps; the next equations to solve are those recorded. The
/// result is the solved list, and whether solving failed.
pub open spec fn unify_loop(u: Seq<EqTermV>, eqs: Seq<EqTermV>, t: Seq<EqTermV>, cur: Seq<EqTermV>, fuel: nat) -> Result<(Seq<EqTermV>, bool), UnifyError>
    decreases fuel,
{
    if u.len() == 0 {
        Ok((t, false))
    } else if fuel == 0 {
        Err(UnifyError::OutOfFuel)
    } else {
        match getcf_spec(u, eqs, t, cur) {
            None => Err(UnifyError::Undefined),
            Some((e1, t1, c1, err)) => if err {
                Ok((t1, true))
            } else {
                unify_loop(e1, e1, t1, c1, (fuel - 1) as nat)
            },
        }
    }
}

/// Unifying `reg` with the left side of `rule`: when the equations are
/// solved, the first solved equation takes the right side of the rule, and
/// back substitution (see [`magic_spec`]) gives the rewritten expression;
/// when they cannot be, `reg` with the failure flag.
pub open spec fn unify_spec(reg: TermV, rule: RuleV, fuel: nat) -> Result<(TermV, bool), UnifyError> {
    match unify_loop(start_eqs(reg, rule.left), Seq::empty(), Seq::empty(), Seq::empty(), fuel) {
        Err(e) => Err(e),
        Ok((t, err)) => if err {
            Ok((reg, true))
        } else {
            Ok((magic_spec(t.update(0, with_terms(t[0], seq![rule.right])))[0].terms[0], false))
        },
    }
}

proof fn lemma_getcf_pushes(u: Seq<EqTermV>, eqs: Seq<EqTermV>, t: Seq<EqTermV>, cur: Seq<EqTermV>)
    requires
        u.len() > 0,
        getcf_spec(u, eqs, t, cur) matches Some((_, _, _, err)) && !err,
    ensures
        getcf_spec(u, eqs, t, cur) matches Some((_, t1, _, _)) && t1.len() == t.len() + 1 && (all_valued(t) ==> all_valued(t1)),
{
    lemma_fill_rows_grows(reset(u), u, 0, u.len() as int);
    let r = recount(u);
    assert(r.len() >= u.len());
    match first_zero_from(r, 0) {
        None => {},
        Some(i) => {
            let t1 = getcf_spec(u, eqs, t, cur).unwrap().1;
            assert forall|k: int| all_valued(t) && 0 <= k < t1.len() implies (#[trigger] t1[k]).terms.len() > 0 by {
                if k < t.len() {
                    assert(t1[k] == t[k]);
                }
            }
        },
    }
}

proof fn lemma_magic_valued(t: Seq<EqTermV>, k: int)
    requires
        all_valued(t),
        k <= t.len(),
    ensures
        all_valued(magic_from(t, k)),
        magic_from(t, k).len() == t.len(),
    decreases k,
{
    if k > 1 {
        let s = crate::normalize::unify::magic_step(t, k - 1);
        assert forall|j: int| 0 <= j < s.len() implies (#[trigger] s[j]).terms.len() > 0 by {
            if j < k - 1 {
                assert(s[j] == crate::normalize::unify::solved_by(t, k - 1, j));
            }
        }
        lemma_magic_valued(s, k - 1);
    }
}

/// Unifies `reg` with the left side of `nrm` and rewrites it by the right
/// side (see [`unify_spec`]), solving in at most `fuel` steps.
#[verifier::loop_isolation(false)]
pub fn try_to_unify(reg: Term, nrm: Rule, fuel: u64) -> (res: Result<(Term, bool), UnifyError>)
    ensures
        match unify_spec(reg@, nrm@, fuel as nat) {
            Ok((t, b)) => res matches Ok((rt, rb)) && rt@ == t && rb == b,
            Err(e) => res == Err::<(Term, bool), UnifyError>(e),
        },
{
    let ghost goal = unify_loop(start_eqs(reg@, nrm@.left), Seq::empty(), Seq::empty(), Seq::empty(), fuel as nat);
    let heart = Term { value: crate::text::char_string('\u{2665}'), var: 0, left: None, right: None };
    let vars = vec![heart];
    let terms = vec![clone_term(&reg), clone_term(&nrm.left)];
    let first = EqTerm { instances: 0, vars, terms };
    assert(first@.vars =~= seq![TermV { value: heart_text(), var: 0, left: None, right: None }]);
    assert(first@.terms =~= seq![reg@, nrm@.left]);
    let mut U: Vec<EqTerm> = vec![first];
    assert(eqs_view(U@) =~= start_eqs(reg@, nrm@.left));
    let mut T: Vec<EqTerm> = Vec::new();
    let mut F: Vec<EqTerm> = Vec::new();
    let mut current: Vec<EqTerm> = Vec::new();
    assert(eqs_view(T@) =~= Seq::<EqTermV>::empty());
    assert(eqs_view(F@) =~= Seq::<EqTermV>::empty());
    assert(eqs_view(current@) =~= Seq::<EqTermV>::empty());
    let mut fuel_left = fuel;
    while U.len() > 0
        invariant
            goal == unify_loop(eqs_view(U@), eqs_view(F@), eqs_view(T@), eqs_view(current@), fuel_left as nat),
            U@.len() > 0 || T@.len() > 0,
            all_valued(eqs_view(T@)),
        decreases fuel_left,
    {
        if fuel_left == 0 {
            return Err(UnifyError::OutOfFuel);
        }
        let ghost uv = eqs_view(U@);
        let ghost tv = eqs_view(T@);
        let r = getCF(U, F, T, current);
        match r {
            None => {
                return Err(UnifyError::Undefined);
            },
            Some((f1, t1, c1, err)) => {
                if err {
                    return Ok((reg, true));
                }
                proof {
                    lemma_getcf_pushes(uv, eqs_view(F@), tv, eqs_view(current@));
                }
                U = clone_eqs(&f1);
                F = f1;
                T = t1;
                current = c1;
            },
        }
        fuel_left = fuel_left - 1;
    }
    let ghost tv = eqs_view(T@);
    let e0 = EqTerm { instances: T[0].instances, vars: clone_terms(&T[0].vars), terms: vec![clone_term(&nrm.right)] };
    assert(e0@.terms =~= seq![nrm@.right]);
    assert(tv[0] == T@[0]@);
    T.set(0, e0);
    assert(eqs_view(T@) =~= tv.update(0, with_terms(tv[0], seq![nrm@.right])));
    let ghost t1 = eqs_view(T@);
    assert(all_valued(t1)) by {
        assert forall|k: int| 0 <= k < t1.len() implies (#[trigger] t1[k]).terms.len() > 0 by {
            if k != 0 {
                assert(t1[k] == tv[k]);
            }
        }
    }
    let T = magic(T);
    proof {
        lemma_magic_valued(t1, t1.len() as int);
    }
    assert(eqs_view(T@)[0] == T@[0]@);
    assert(eqs_view(T@)[0].terms[0] == T@[0].terms@[0]@);
    Ok((clone_term(&T[0].terms[0]), false))
}

/// The result of [`unify_or_ignore`]: the rewritten expression and `true`
/// when the rule applies, else the expression unchanged and `false`.
pub open spec fn unify_or_ignore_spec(reg: TermV, rule: RuleV, fuel: nat) -> Result<(TermV, bool), UnifyError> {
    match unify_spec(reg, rule, fuel) {
        Err(e) => Err(e),
        Ok((t, err)) => if !err {
            Ok((t, true))
        } else {
            Ok((reg, false))
        },
    }
}

/// Rewrites `reg` by `nrm` if the rule applies (see [`unify_or_ignore_spec`]).
pub fn unify_or_ignore(reg: Term, nrm: Rule, fuel: u64) -> (res: Result<(Term, bool), UnifyError>)
    ensures
        match unify_or_ignore_spec(reg@, nrm@, fuel as nat) {
            Ok((t, b)) => res matches Ok((rt, rb)) && rt@ == t && rb == b,
            Err(e) => res == Err::<(Term, bool), UnifyError>(e),
        },
{
    match try_to_unify(clone_term(&reg), nrm, fuel) {
        Err(e) => Err(e),
        Ok((new, err)) => {
            if !err {
                Ok((new, true))
            } else {
                Ok((reg, false))
            }
        },
    }
}

/// Trying the rules of `norms` from index `k` on at the root of `head`:
/// the result of the first that applies, or `None`.
pub open spec fn rules_try(head: TermV, norms: Seq<RuleV>, fuel: nat, k: int) -> Result<Option<TermV>, UnifyError>
    decreases norms.len() - k,
{
    if k < 0 || k >= norms.len() {
        Ok(None)
    } else {
        match unify_spec(head, norms[k], fuel) {
            Err(e) => Err(e),
            Ok((t, err)) => if !err {
                Ok(Some(t))
            } else {
                rules_try(head, norms, fuel, k + 1)
            },
        }
    }
}

/// One rewriting step: the first rule that applies at the root of `head`,
/// else one step in the left operand, else one in the right operand. The
/// flag tells whether a rule applied.
pub open spec fn bfs_spec(head: TermV, norms: Seq<RuleV>, fuel: nat) -> Result<(TermV, bool), UnifyError>
    decreases head,
{
    match rules_try(head, norms, fuel, 0) {
        Err(e) => Err(e),
        Ok(Some(t)) => Ok((t, true)),
        Ok(None) => {
            let r1 = match head.left {
                Some(l) => match bfs_spec(*l, norms, fuel) {
                    Err(e) => Err(e),
                    Ok((a, c)) => Ok((with_left(head, a), c)),
                },
                None => Ok((head, false)),
            };
            match r1 {
                Err(e) => Err(e),
                Ok((h1, c1)) => if c1 {
                    Ok((h1, true))
                } else {
                    match head.right {
                        Some(r) => match bfs_spec(*r, norms, fuel) {
                            Err(e) => Err(e),
                            Ok((b, c)) => Ok((with_right(h1, b), c)),
                        },
                        None => Ok((h1, false)),
                    }
                },
            }
        },
    }
}

/// Tries the rules at the root of `head` (see [`rules_try`]).
fn rules_apply(head: &Term, norms: &Vec<Rule>, fuel: u64) -> (res: Result<Option<Term>, UnifyError>)
    ensures
        match rules_try(head@, rules_view(norms@), fuel as nat, 0) {
            Ok(Some(t)) => res matches Ok(Some(rt)) && rt@ == t,
            Ok(None) => res matches Ok(None),
            Err(e) => res == Err::<Option<Term>, UnifyError>(e),
        },
{
    let ghost nv = rules_view(norms@);
    let mut k: usize = 0;
    while k < norms.len()
        invariant
            k <= norms.len(),
            nv == rules_view(norms@),
            rules_try(head@, nv, fuel as nat, 0) == rules_try(head@, nv, fuel as nat, k as int),
        decreases norms.len() - k,
    {
        assert(nv[k as int] == norms@[k as int]@);
        match unify_or_ignore(clone_term(head), clone_rule(&norms[k]), fuel) {
            Err(e) => {
                return Err(e);
            },
            Ok((t, cont)) => {
                if cont {
                    return Ok(Some(t));
                }
            },
        }
        k += 1;
    }
    Ok(None)
}

/// One rewriting step (see [`bfs_spec`]).
fn bfs_step(head: Term, norms: &Vec<Rule>, fuel: u64) -> (res: Result<(Term, bool), UnifyError>)
    ensures
        match bfs_spec(head@, rules_view(norms@), fuel as nat) {
            Ok((t, b)) => res matches Ok((rt, rb)) && rt@ == t && rb == b,
            Err(e) => res == Err::<(Term, bool), UnifyError>(e),
        },
    decreases head,
{
    let ghost hv = head@;
    match rules_apply(&head, norms, fuel) {
        Err(e) => {
            return Err(e);
        },
        Ok(Some(t)) => {
            return Ok((t, true));
        },
        Ok(None) => {},
    }
    let Term { value, var, left, right } = head;
    let mut h = Term { value, var, left: None, right: None };
    let mut right = right;
    match left {
        Some(l) => {
            match bfs_step(*l, norms, fuel) {
                Err(e) => {
                    return Err(e);
                },
                Ok((a, cont)) => {
                    let ghost av = a@;
                    h.left = Some(Box::new(a));
                    if cont {
                        h.right = right;
                        assert(h@ == with_left(hv, av));
                        return Ok((h, true));
                    }
                },
            }
        },
        None => {},
    }
    let ghost h1 = TermV { value: hv.value, var: hv.var, left: h@.left, right: hv.right };
    match right {
        Some(r) => {
            match bfs_step(*r, norms, fuel) {
                Err(e) => {
                    return Err(e);
                },
                Ok((b, cont)) => {
                    let ghost bv = b@;
                    h.right = Some(Box::new(b));
                    assert(h@ == with_right(h1, bv));
                    return Ok((h, cont));
                },
            }
        },
        None => {},
    }
    assert(h@ == h1);
    Ok((h, false))
}

/// One rewriting step of `head` by `norms` (see [`bfs_spec`]): the
/// expression after it, and whether a rule applied.
pub fn bfs_is_cancer(head: Term, norms: Vec<Rule>, fuel: u64) -> (res: Result<(Term, bool), UnifyError>)
    ensures
        match bfs_spec(head@, rules_view(norms@), fuel as nat) {
            Ok((t, b)) => res matches Ok((rt, rb)) && rt@ == t && rb == b,
            Err(e) => res == Err::<(Term, bool), UnifyError>(e),
        },
{
    bfs_step(head, &norms, fuel)
}

/// Rewriting `reg` by `norms` round after round (see [`bfs_spec`]), at most
/// `rounds` times, stopping after the first round in which no rule applies.
/// The result is the expression, whether the last round taken still changed
/// it (with no round allowed, the expression counts as still changing), and
/// the number of rounds taken.
pub open spec fn rounds_spec(reg: TermV, norms: Seq<RuleV>, rounds: nat, fuel: nat) -> Result<(TermV, bool, nat), UnifyError>
    decreases rounds,
{
    if rounds == 0 {
        Ok((reg, true, 0))
    } else {
        match bfs_spec(reg, norms, fuel) {
            Err(e) => Err(e),
            Ok((t, changed)) => if !changed {
                Ok((t, false, 1))
            } else {
                match rounds_spec(t, norms, (rounds - 1) as nat, fuel) {
                    Err(e) => Err(e),
                    Ok((t2, c2, n)) => Ok((t2, c2, n + 1)),
                }
            },
        }
    }
}

/// Normalises `reg` by `norms` for at most `rounds` rounds (see
/// [`rounds_spec`]), each round solving in at most `fuel` steps.
pub fn normalize_rounds(reg: Term, norms: &Vec<Rule>, rounds: u32, fuel: u64) -> (res: Result<(Term, bool, u32), UnifyError>)
    ensures
        match rounds_spec(reg@, rules_view(norms@), rounds as nat, fuel as nat) {
            Ok((t, c, n)) => res matches Ok((rt, rc, rn)) && rt@ == t && rc == c && rn == n,
            Err(e) => res == Err::<(Term, bool, u32), UnifyError>(e),
        },
        res matches Ok((_, _, n)) ==> n <= rounds,
    decreases rounds,
{
    if rounds == 0 {
        return Ok((reg, true, 0));
    }
    match bfs_step(reg, norms, fuel) {
        Err(e) => Err(e),
        Ok((t, changed)) => {
            if !changed {
                Ok((t, false, 1))
            } else {
                match normalize_rounds(t, norms, rounds - 1, fuel) {
                    Err(e) => Err(e),
                    Ok((t2, c2, n)) => Ok((t2, c2, n + 1)),
                }
            }
        },
    }
}

} // verus!
