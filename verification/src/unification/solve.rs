//! Solving a system of equations step by step, the whole unification of two
//! terms, and the written report of its result.
use vstd::prelude::*;
use crate::unification::term::{Term, TermV, terms_view, clone_term, clone_terms, full_text, text_of, lemma_children_view};
use crate::text::{decimal, decimal_string};
use crate::unification::system::{
    EqTerm, EqTermV, eqs_view, clone_eq, fill_eq, fill_list, counts_fit, grows, lemma_fill_list_grows,
    lemma_grows_trans, lemma_unfit_grows, removable, remove_spec, remove_from_EqTerm, all_named, clean_spec,
    clean_F, clear_empty_spec, clear_empty, all_valued, unify_system_spec, unify_system, merge_equals_spec,
    merge_equals, clear_from, named_pred, lemma_unify_system_shape, lemma_merge_equals_shape,
};
use crate::unification::separate::{UnifyFailure, separateCF, sep_spec};
use crate::text::{push_char, push_str, char_len, substring, char_string};

verus! {

/// `eqs` with every count set to zero.
pub open spec fn reset(eqs: Seq<EqTermV>) -> Seq<EqTermV> {
    eqs.map_values(|e: EqTermV| EqTermV { instances: 0, equal: e.equal, terms: e.terms })
}

/// Counting the variables of the terms of the first `i` equations of `u`.
pub open spec fn fill_rows(eqs: Seq<EqTermV>, u: Seq<EqTermV>, i: int) -> Seq<EqTermV>
    decreases i,
{
    if i <= 0 {
        eqs
    } else {
        fill_list(fill_rows(eqs, u, i - 1), u[i - 1].terms)
    }
}

/// The equations counted afresh: how often the variables of each occur in
/// the terms of all of them.
pub open spec fn recount(u: Seq<EqTermV>) -> Seq<EqTermV> {
    fill_rows(reset(u), u, u.len() as int)
}

/// The first equation from index `i` on whose variables occur nowhere.
pub open spec fn first_zero_from(eqs: Seq<EqTermV>, i: int) -> Option<int>
    decreases eqs.len() - i,
{
    if i < 0 || i >= eqs.len() {
        None
    } else if eqs[i].instances == 0 {
        Some(i)
    } else {
        first_zero_from(eqs, i + 1)
    }
}

/// The fresh variable `T<ind>`.
pub open spec fn fresh_var(ind: int) -> TermV {
    TermV { value: seq!['T'] + decimal(ind), var: 1, children: Seq::empty() }
}

/// One step of solving the equations `u` (which `eqs` records too) into the
/// solved list `t`, with `ind` the number of the next fresh variable: after
/// counting, the first equation whose variables occur nowhere is solved.
/// Without terms its variables are bound to a fresh variable; with terms,
/// these are split (see [`sep_spec`]) and the common part goes to `t`. In
/// both cases the equation leaves `eqs`. Without such an equation the
/// system has a cycle, unless it is empty.
pub open spec fn getcf_spec(u: Seq<EqTermV>, eqs: Seq<EqTermV>, t: Seq<EqTermV>, ind: int) -> Result<(int, Seq<EqTermV>, Seq<EqTermV>), UnifyFailure> {
    let r = recount(u);
    if !counts_fit(r) {
        Err(UnifyFailure::Undefined)
    } else {
        match first_zero_from(r, 0) {
            None => if r.len() > 0 {
                Err(UnifyFailure::Cycle)
            } else {
                Ok((ind, eqs, t))
            },
            Some(i) => if r[i].terms.len() == 0 {
                if ind + 1 > i32::MAX || !removable(eqs, r[i].equal) {
                    Err(UnifyFailure::Undefined)
                } else {
                    Ok((ind + 1, remove_spec(eqs, r[i].equal), t.push(EqTermV { instances: 0, equal: r[i].equal, terms: seq![fresh_var(ind)] })))
                }
            } else {
                match sep_spec(r[i].terms, eqs) {
                    Err(e) => Err(e),
                    Ok((c, e1)) => if !removable(e1, r[i].equal) {
                        Err(UnifyFailure::Undefined)
                    } else {
                        Ok((ind, remove_spec(e1, r[i].equal), t.push(EqTermV { instances: 0, equal: r[i].equal, terms: seq![c] })))
                    },
                }
            },
        }
    }
}

proof fn lemma_fill_rows_grows(eqs: Seq<EqTermV>, u: Seq<EqTermV>, i: int, n: int)
    requires
        0 <= i <= n,
    ensures
        grows(fill_rows(eqs, u, i), fill_rows(eqs, u, n)),
    decreases n - i,
{
    if i < n {
        lemma_fill_rows_grows(eqs, u, i + 1, n);
        lemma_fill_list_grows(fill_rows(eqs, u, i), u[i].terms);
        lemma_grows_trans(fill_rows(eqs, u, i), fill_rows(eqs, u, i + 1), fill_rows(eqs, u, n));
    } else {
        assert(grows(fill_rows(eqs, u, i), fill_rows(eqs, u, n)));
    }
}

proof fn lemma_first_zero_at(eqs: Seq<EqTermV>, j: int, i: int)
    requires
        0 <= j <= i < eqs.len(),
        forall|k: int| j <= k < i ==> (#[trigger] eqs[k]).instances != 0,
        eqs[i].instances == 0,
    ensures
        first_zero_from(eqs, j) == Some(i),
    decreases i - j,
{
    if j < i {
        lemma_first_zero_at(eqs, j + 1, i);
    }
}

proof fn lemma_no_zero(eqs: Seq<EqTermV>, j: int)
    requires
        0 <= j,
        forall|k: int| j <= k < eqs.len() ==> (#[trigger] eqs[k]).instances != 0,
    ensures
        first_zero_from(eqs, j) == None::<int>,
    decreases eqs.len() - j,
{
    if j < eqs.len() {
        lemma_no_zero(eqs, j + 1);
    }
}

/// Counts the equations afresh (see [`recount`]); `None` on overflow.
#[verifier::loop_isolation(false)]
fn recount_exec(U: &Vec<EqTerm>) -> (res: Option<Vec<EqTerm>>)
    ensures
        match res {
            Some(s) => eqs_view(s@) == recount(eqs_view(U@)),
            None => !counts_fit(recount(eqs_view(U@))),
        },
{
    let ghost u = eqs_view(U@);
    let mut s: Vec<EqTerm> = Vec::new();
    let mut i: usize = 0;
    while i < U.len()
        invariant
            i <= U.len(),
            u == eqs_view(U@),
            eqs_view(s@) == reset(u).take(i as int),
        decreases U.len() - i,
    {
        assert(u[i as int] == U@[i as int]@);
        let e = EqTerm { instances: 0, equal: clone_terms(&U[i].equal), terms: clone_terms(&U[i].terms) };
        let ghost prev = eqs_view(s@);
        s.push(e);
        assert(eqs_view(s@) =~= prev.push(e@));
        assert(reset(u).take(i + 1) =~= reset(u).take(i as int).push(reset(u)[i as int]));
        i += 1;
    }
    assert(reset(u).take(i as int) =~= reset(u));
    let ghost base = reset(u);
    let n = U.len();
    let mut i: usize = 0;
    while i < n
        invariant
            i <= n,
            n == u.len(),
            u == eqs_view(U@),
            eqs_view(s@) == fill_rows(base, u, i as int),
        decreases n - i,
    {
        assert(u[i as int] == U@[i as int]@);
        match fill_eq(s, clone_terms(&U[i].terms)) {
            None => {
                proof {
                    lemma_fill_rows_grows(base, u, i + 1, n as int);
                    lemma_unfit_grows(fill_rows(base, u, i + 1), fill_rows(base, u, n as int));
                }
                return None;
            },
            Some(s1) => {
                s = s1;
            },
        }
        i += 1;
    }
    Some(s)
}

/// Whether every equation of `eqs` is on `vars` or has a variable.
fn removable_exec(eqs: &Vec<EqTerm>, vars: &Vec<Term>) -> (res: bool)
    ensures
        res == removable(eqs_view(eqs@), terms_view(vars@)),
{
    let ghost ev = eqs_view(eqs@);
    let mut i: usize = 0;
    while i < eqs.len()
        invariant
            i <= eqs.len(),
            ev == eqs_view(eqs@),
            forall|k: int| 0 <= k < i ==> (#[trigger] ev[k]).equal == terms_view(vars@) || ev[k].equal.len() > 0,
        decreases eqs.len() - i,
    {
        assert(ev[i as int] == eqs@[i as int]@);
        if eqs[i].equal.len() == 0 && !crate::unification::system::terms_eq(&eqs[i].equal, vars) {
            return false;
        }
        i += 1;
    }
    true
}

/// The value of a result of [`getCF`].
pub open spec fn getcf_view(r: Result<(i32, Vec<EqTerm>, Vec<EqTerm>), UnifyFailure>) -> Result<(int, Seq<EqTermV>, Seq<EqTermV>), UnifyFailure> {
    match r {
        Ok((i, f, t)) => Ok((i as int, eqs_view(f@), eqs_view(t@))),
        Err(e) => Err(e),
    }
}

/// One step of solving the equations (see [`getcf_spec`]).
#[verifier::loop_isolation(false)]
pub fn getCF(U: Vec<EqTerm>, F: Vec<EqTerm>, T: Vec<EqTerm>, ind: i32) -> (res: Result<(i32, Vec<EqTerm>, Vec<EqTerm>), UnifyFailure>)
    ensures
        getcf_view(res) == getcf_spec(eqs_view(U@), eqs_view(F@), eqs_view(T@), ind as int),
{
    let ghost u = eqs_view(U@);
    let s = match recount_exec(&U) {
        None => {
            return Err(UnifyFailure::Undefined);
        },
        Some(s) => s,
    };
    let ghost r = recount(u);
    assert forall|k: int| 0 <= k < r.len() implies (#[trigger] r[k]).instances <= i32::MAX by {
        assert(r[k] == s@[k]@);
    }
    let ghost t0 = eqs_view(T@);
    let mut T = T;
    let mut i: usize = 0;
    while i < s.len()
        invariant
            i <= s.len(),
            eqs_view(T@) == t0,
            r == eqs_view(s@),
            forall|k: int| 0 <= k < i ==> (#[trigger] r[k]).instances != 0,
        decreases s.len() - i,
    {
        assert(r[i as int] == s@[i as int]@);
        if s[i].instances == 0 {
            proof {
                lemma_first_zero_at(r, 0, i as int);
            }
            if s[i].terms.len() == 0 {
                if ind == i32::MAX {
                    return Err(UnifyFailure::Undefined);
                }
                if !removable_exec(&F, &s[i].equal) {
                    return Err(UnifyFailure::Undefined);
                }
                let mut name = char_string('T');
                let digits = decimal_string(ind);
                push_str(&mut name, &digits);
                let n = Term { value: name, var: 1, children: Vec::new() };
                proof {
                    lemma_children_view(n);
                    assert(n@.value =~= seq!['T'] + decimal(ind as int));
                    assert(n@.children =~= Seq::<TermV>::empty());
                }
                let out = EqTerm { instances: 0, equal: clone_terms(&s[i].equal), terms: vec![n] };
                assert(out@.terms =~= seq![fresh_var(ind as int)]);
                let f1 = remove_from_EqTerm(F, clone_eq(&s[i]));
                let ghost tb = eqs_view(T@);
                T.push(out);
                assert(eqs_view(T@) =~= tb.push(out@));
                return Ok((ind + 1, f1, T));
            }
            let (c, f1) = match separateCF(clone_terms(&s[i].terms), F) {
                Err(e) => {
                    return Err(e);
                },
                Ok(x) => x,
            };
            if !removable_exec(&f1, &s[i].equal) {
                return Err(UnifyFailure::Undefined);
            }
            let e = EqTerm { instances: 0, equal: clone_terms(&s[i].equal), terms: vec![c] };
            assert(e@.terms =~= seq![c@]);
            let ghost tb = eqs_view(T@);
            T.push(e);
            assert(eqs_view(T@) =~= tb.push(e@));
            let f2 = remove_from_EqTerm(f1, clone_eq(&s[i]));
            return Ok((ind, f2, T));
        }
        i += 1;
    }
    proof {
        lemma_no_zero(r, 0);
    }
    if s.len() > 0 {
        return Err(UnifyFailure::Cycle);
    }
    Ok((ind, F, T))
}

/// Solving the equations `u` step by step (see [`getcf_spec`]), at most
/// `fuel` steps: after each step the equations marked as removed and those
/// without terms that clash with others are dropped (see [`clean_spec`] and
/// [`clear_empty_spec`]), and what is left is solved next.
pub open spec fn mm_spec(u: Seq<EqTermV>, eqs: Seq<EqTermV>, t: Seq<EqTermV>, ind: int, fuel: nat) -> Result<Seq<EqTermV>, UnifyFailure>
    decreases fuel,
{
    if u.len() == 0 {
        Ok(t)
    } else if fuel == 0 {
        Err(UnifyFailure::OutOfFuel)
    } else {
        match getcf_spec(u, eqs, t, ind) {
            Err(e) => Err(e),
            Ok((ind1, e1, t1)) => if !all_named(e1) {
                Err(UnifyFailure::Undefined)
            } else {
                let e2 = clear_empty_spec(clean_spec(e1));
                mm_spec(e2, e2, t1, ind1, (fuel - 1) as nat)
            },
        }
    }
}

/// Whether every equation has a variable.
fn all_named_exec(eqs: &Vec<EqTerm>) -> (res: bool)
    ensures
        res == all_named(eqs_view(eqs@)),
{
    let ghost ev = eqs_view(eqs@);
    let mut i: usize = 0;
    while i < eqs.len()
        invariant
            i <= eqs.len(),
            ev == eqs_view(eqs@),
            forall|k: int| 0 <= k < i ==> (#[trigger] ev[k]).equal.len() > 0,
        decreases eqs.len() - i,
    {
        assert(ev[i as int] == eqs@[i as int]@);
        if eqs[i].equal.len() == 0 {
            return false;
        }
        i += 1;
    }
    true
}

/// The value of a result of [`MartMont`].
pub open spec fn mm_view(r: Result<Vec<EqTerm>, UnifyFailure>) -> Result<Seq<EqTermV>, UnifyFailure> {
    match r {
        Ok(t) => Ok(eqs_view(t@)),
        Err(e) => Err(e),
    }
}

/// Solves the equations (see [`mm_spec`]) in at most `fuel` steps.
pub fn MartMont(U: Vec<EqTerm>, F: Vec<EqTerm>, T: Vec<EqTerm>, ind: i32, fuel: u64) -> (res: Result<Vec<EqTerm>, UnifyFailure>)
    ensures
        mm_view(res) == mm_spec(eqs_view(U@), eqs_view(F@), eqs_view(T@), ind as int, fuel as nat),
    decreases fuel,
{
    if U.len() == 0 {
        return Ok(T);
    }
    if fuel == 0 {
        return Err(UnifyFailure::OutOfFuel);
    }
    match getCF(U, F, T, ind) {
        Err(e) => Err(e),
        Ok((ind1, f1, t1)) => {
            if !all_named_exec(&f1) {
                return Err(UnifyFailure::Undefined);
            }
            let f2 = clear_empty(clean_F(f1));
            let u2 = crate::unification::system::clone_eqs(&f2);
            MartMont(u2, f2, t1, ind1, fuel - 1)
        },
    }
}

/// The name of the equation between the two terms.
pub open spec fn heart_text() -> Seq<char> {
    seq!['\u{2665}']
}

/// The first equation: a variable equal to both terms.
pub open spec fn start_eqs(t1: TermV, t2: TermV) -> Seq<EqTermV> {
    seq![EqTermV { instances: 0, equal: seq![TermV { value: heart_text(), var: 1, children: Seq::empty() }], terms: seq![t1, t2] }]
}

/// The unification of `t1` and `t2`: the equation between them solved
/// (see [`mm_spec`], fresh variables numbered from 1), then the solved
/// system reduced (see [`unify_system_spec`]) and its repeated variables
/// dropped (see [`merge_equals_spec`]).
pub open spec fn unify_terms_spec(t1: TermV, t2: TermV, fuel: nat) -> Result<Seq<EqTermV>, UnifyFailure> {
    match mm_spec(start_eqs(t1, t2), Seq::empty(), Seq::empty(), 1, fuel) {
        Err(e) => Err(e),
        Ok(t) => Ok(merge_equals_spec(unify_system_spec(t))),
    }
}

proof fn lemma_getcf_valued(u: Seq<EqTermV>, eqs: Seq<EqTermV>, t: Seq<EqTermV>, ind: int)
    requires
        all_valued(t),
        getcf_spec(u, eqs, t, ind) is Ok,
    ensures
        all_valued(getcf_spec(u, eqs, t, ind)->Ok_0.2),
{
    let t1 = getcf_spec(u, eqs, t, ind)->Ok_0.2;
    assert forall|k: int| 0 <= k < t1.len() implies (#[trigger] t1[k]).terms.len() > 0 by {
        if k < t.len() {
            assert(t1[k] == t[k]);
        }
    }
}

proof fn lemma_mm_valued(u: Seq<EqTermV>, eqs: Seq<EqTermV>, t: Seq<EqTermV>, ind: int, fuel: nat)
    requires
        all_valued(t),
        mm_spec(u, eqs, t, ind, fuel) is Ok,
    ensures
        all_valued(mm_spec(u, eqs, t, ind, fuel)->Ok_0),
    decreases fuel,
{
    if u.len() > 0 && fuel > 0 {
        lemma_getcf_valued(u, eqs, t, ind);
        let (ind1, e1, t1) = getcf_spec(u, eqs, t, ind)->Ok_0;
        let e2 = clear_empty_spec(clean_spec(e1));
        lemma_mm_valued(e2, e2, t1, ind1, (fuel - 1) as nat);
    }
}

proof fn lemma_first_zero_in(eqs: Seq<EqTermV>, j: int)
    requires
        0 <= j,
    ensures
        first_zero_from(eqs, j) matches Some(i) ==> j <= i < eqs.len(),
    decreases eqs.len() - j,
{
    if j < eqs.len() && eqs[j].instances != 0 {
        lemma_first_zero_in(eqs, j + 1);
    }
}

proof fn lemma_recount_shape(u: Seq<EqTermV>)
    ensures
        recount(u).len() == u.len(),
        forall|k: int| 0 <= k < u.len() ==> (#[trigger] recount(u)[k]).equal == u[k].equal,
{
    lemma_fill_rows_grows(reset(u), u, 0, u.len() as int);
    assert forall|k: int| 0 <= k < u.len() implies (#[trigger] recount(u)[k]).equal == u[k].equal by {
        assert(reset(u)[k].equal == u[k].equal);
    }
}

/// Solving named equations records named equations, at least one when there
/// is something to solve.
proof fn lemma_mm_named(u: Seq<EqTermV>, eqs: Seq<EqTermV>, t: Seq<EqTermV>, ind: int, fuel: nat)
    requires
        all_named(u),
        all_named(t),
        mm_spec(u, eqs, t, ind, fuel) is Ok,
    ensures
        all_named(mm_spec(u, eqs, t, ind, fuel)->Ok_0),
        mm_spec(u, eqs, t, ind, fuel)->Ok_0.len() >= t.len(),
        u.len() > 0 ==> mm_spec(u, eqs, t, ind, fuel)->Ok_0.len() > t.len(),
    decreases fuel,
{
    broadcast use vstd::seq_lib::group_filter_ensures;
    if u.len() > 0 && fuel > 0 {
        let r = recount(u);
        lemma_recount_shape(u);
        let (ind1, e1, t1) = getcf_spec(u, eqs, t, ind)->Ok_0;
        assert(first_zero_from(r, 0) is Some);
        let i = first_zero_from(r, 0)->Some_0;
        lemma_first_zero_in(r, 0);
        assert(r[i].equal == u[i].equal);
        assert(t1.len() == t.len() + 1);
        assert forall|k: int| 0 <= k < t1.len() implies (#[trigger] t1[k]).equal.len() > 0 by {
            if k < t.len() {
                assert(t1[k] == t[k]);
            }
        }
        let e2 = clear_empty_spec(clean_spec(e1));
        assert forall|k: int| 0 <= k < e2.len() implies (#[trigger] e2[k]).equal.len() > 0 by {
            clear_from(clean_spec(e1), clean_spec(e1).len() as int).lemma_filter_pred(named_pred(), k);
        }
        lemma_mm_named(e2, e2, t1, ind1, (fuel - 1) as nat);
    }
}

/// Unifies two terms (see [`unify_terms_spec`]), solving in at most `fuel`
/// steps.
pub fn unify_terms(t1: Term, t2: Term, fuel: u64) -> (res: Result<Vec<EqTerm>, UnifyFailure>)
    ensures
        mm_view(res) == unify_terms_spec(t1@, t2@, fuel as nat),
        res matches Ok(t) ==> t@.len() > 0 && all_named(eqs_view(t@)) && all_valued(eqs_view(t@)),
{
    let ghost v1 = t1@;
    let ghost v2 = t2@;
    let heart = Term { value: char_string('\u{2665}'), var: 1, children: Vec::new() };
    proof {
        lemma_children_view(heart);
        assert(heart@.children =~= Seq::<TermV>::empty());
    }
    let first = EqTerm { instances: 0, equal: vec![heart], terms: vec![t1, t2] };
    assert(first@.equal =~= seq![TermV { value: heart_text(), var: 1, children: Seq::empty() }]);
    assert(first@.terms =~= seq![v1, v2]);
    let u = vec![first];
    assert(eqs_view(u@) =~= start_eqs(v1, v2));
    let f: Vec<EqTerm> = Vec::new();
    let t: Vec<EqTerm> = Vec::new();
    assert(eqs_view(f@) =~= Seq::<EqTermV>::empty());
    assert(eqs_view(t@) =~= Seq::<EqTermV>::empty());
    match MartMont(u, f, t, 1, fuel) {
        Err(e) => Err(e),
        Ok(solved) => {
            proof {
                lemma_mm_valued(start_eqs(v1, v2), Seq::empty(), Seq::empty(), 1, fuel as nat);
                assert(start_eqs(v1, v2)[0].equal.len() > 0);
                lemma_mm_named(start_eqs(v1, v2), Seq::empty(), Seq::empty(), 1, fuel as nat);
                lemma_unify_system_shape(eqs_view(solved@));
            }
            let sys = unify_system(solved);
            proof {
                lemma_merge_equals_shape(eqs_view(sys@));
            }
            Ok(merge_equals(sys))
        },
    }
}

/// `s` without its last two characters (as many as it has).
pub open spec fn drop2(s: Seq<char>) -> Seq<char> {
    if s.len() >= 2 {
        s.subrange(0, s.len() - 2)
    } else {
        Seq::empty()
    }
}

/// The names of `vs`, each followed by `, `.
pub open spec fn names_sep(vs: Seq<TermV>) -> Seq<char>
    decreases vs.len(),
{
    if vs.len() == 0 {
        Seq::empty()
    } else {
        names_sep(vs.drop_last()) + vs.last().value + seq![',', ' ']
    }
}

/// The written forms of `ts`, each followed by `, `.
pub open spec fn texts_sep(ts: Seq<TermV>) -> Seq<char>
    decreases ts.len(),
{
    if ts.len() == 0 {
        Seq::empty()
    } else {
        texts_sep(ts.drop_last()) + full_text(ts.last()) + seq![',', ' ']
    }
}

/// The text `} = (`.
pub open spec fn eq_text() -> Seq<char> {
    seq!['}', ' ', '=', ' ', '(']
}

/// The line of the unified term: `{` and the first variable, `} = (`, and
/// the term.
pub open spec fn first_line(e: EqTermV) -> Seq<char> {
    seq!['{'] + e.equal[0].value + eq_text() + full_text(e.terms[0])
}

/// The line of a rule: `{`, the variables, `} = (`, the terms, `)`.
pub open spec fn rule_line(e: EqTermV) -> Seq<char> {
    drop2(drop2(seq!['{'] + names_sep(e.equal)) + eq_text() + texts_sep(e.terms)) + seq![')']
}

/// The lines of the report of a solved system.
pub open spec fn report_lines(t: Seq<EqTermV>) -> Seq<Seq<char>> {
    Seq::new(t.len(), |i: int| if i == 0 { first_line(t[0]) } else { rule_line(t[i]) })
}

pub open spec fn strings_view(s: Seq<String>) -> Seq<Seq<char>> {
    s.map_values(|x: String| x@)
}

fn eq_string() -> (res: String)
    ensures
        res@ == eq_text(),
{
    let s = crate::text::string_of(&['}', ' ', '=', ' ', '(']);
    assert(s@ =~= eq_text());
    s
}

fn drop2_exec(s: String) -> (res: String)
    ensures
        res@ == drop2(s@),
{
    let n = char_len(&s);
    if n >= 2 {
        substring(&s, 0, n - 2)
    } else {
        crate::text::empty_string()
    }
}

fn rule_line_exec(e: &EqTerm) -> (res: String)
    ensures
        res@ == rule_line(e@),
{
    let ghost ev = e@;
    let mut out = char_string('{');
    let mut k: usize = 0;
    while k < e.equal.len()
        invariant
            k <= e.equal.len(),
            ev == e@,
            out@ == seq!['{'] + names_sep(ev.equal.take(k as int)),
        decreases e.equal.len() - k,
    {
        assert(ev.equal.take(k + 1).drop_last() =~= ev.equal.take(k as int));
        assert(ev.equal[k as int] == e.equal@[k as int]@);
        push_str(&mut out, &e.equal[k].value);
        push_char(&mut out, ',');
        push_char(&mut out, ' ');
        assert(out@ =~= seq!['{'] + names_sep(ev.equal.take(k + 1)));
        k += 1;
    }
    assert(ev.equal.take(k as int) =~= ev.equal);
    let mut out = drop2_exec(out);
    push_str(&mut out, &eq_string());
    let ghost mid = out@;
    let mut k: usize = 0;
    while k < e.terms.len()
        invariant
            k <= e.terms.len(),
            ev == e@,
            out@ == mid + texts_sep(ev.terms.take(k as int)),
        decreases e.terms.len() - k,
    {
        assert(ev.terms.take(k + 1).drop_last() =~= ev.terms.take(k as int));
        assert(ev.terms[k as int] == e.terms@[k as int]@);
        let t = text_of(&e.terms[k]);
        push_str(&mut out, &t);
        push_char(&mut out, ',');
        push_char(&mut out, ' ');
        assert(out@ =~= mid + texts_sep(ev.terms.take(k + 1)));
        k += 1;
    }
    assert(ev.terms.take(k as int) =~= ev.terms);
    let mut out = drop2_exec(out);
    push_char(&mut out, ')');
    assert(out@ =~= rule_line(ev));
    out
}

/// The report of a solved system: the line of the unified term, then the
/// line of each rule (see [`report_lines`]).
pub fn format_T(T: &Vec<EqTerm>) -> (res: Vec<String>)
    requires
        T@.len() > 0,
        T@[0]@.equal.len() > 0,
        T@[0]@.terms.len() > 0,
    ensures
        strings_view(res@) == report_lines(eqs_view(T@)),
{
    let ghost tv = eqs_view(T@);
    assert(tv[0] == T@[0]@);
    let mut first = char_string('{');
    push_str(&mut first, &T[0].equal[0].value);
    push_str(&mut first, &eq_string());
    let t0 = text_of(&T[0].terms[0]);
    push_str(&mut first, &t0);
    assert(first@ =~= first_line(tv[0]));
    let mut lines: Vec<String> = Vec::new();
    lines.push(first);
    let mut i: usize = 1;
    while i < T.len()
        invariant
            1 <= i <= T.len(),
            tv == eqs_view(T@),
            strings_view(lines@) == report_lines(tv).take(i as int),
        decreases T.len() - i,
    {
        assert(tv[i as int] == T@[i as int]@);
        let line = rule_line_exec(&T[i]);
        let ghost prev = strings_view(lines@);
        lines.push(line);
        assert(strings_view(lines@) =~= prev.push(line@));
        assert(report_lines(tv).take(i + 1) =~= report_lines(tv).take(i as int).push(report_lines(tv)[i as int]));
        i += 1;
    }
    assert(report_lines(tv).take(i as int) =~= report_lines(tv));
    lines
}

} // verus!
