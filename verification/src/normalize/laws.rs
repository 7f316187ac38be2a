//! Properties of the rewriting tools that hold for every input.
use vstd::prelude::*;
use crate::normalize::regex::{TermV, no_spaces, not_space, with_left};
use crate::normalize::unify::{EqTermV, RuleV, subst, names, remove_spec, kept, kept_pred, skull_text};
use crate::normalize::separate::with_right;
use crate::normalize::solve::{rounds_spec, bfs_spec, rules_try, unify_spec, unify_or_ignore_spec, unify_loop, UnifyError, start_eqs, getcf_spec};

verus! {

proof fn lemma_filter_idem(s: Seq<char>, p: spec_fn(char) -> bool)
    ensures
        s.filter(p).filter(p) == s.filter(p),
        forall|i: int| 0 <= i < s.filter(p).len() ==> p(#[trigger] s.filter(p)[i]),
    decreases s.len(),
{
    reveal(Seq::filter);
    if s.len() > 0 {
        lemma_filter_idem(s.drop_last(), p);
        let sub = s.drop_last().filter(p);
        if p(s.last()) {
            sub.lemma_filter_push(s.last(), p);
            assert(s.filter(p) == sub.push(s.last()));
        }
    }
}

/// Removing spaces leaves no space, and removing them again changes
/// nothing.
pub proof fn law_strip_spaces_idempotent(s: Seq<char>)
    ensures
        no_spaces(no_spaces(s)) == no_spaces(s),
        forall|i: int| 0 <= i < no_spaces(s).len() ==> #[trigger] no_spaces(s)[i] != ' ',
{
    lemma_filter_idem(s, not_space());
}

/// No variable of `t` (as substitution looks for them: through operators
/// only) has a name among `vars`.
pub open spec fn free_of(vars: Seq<TermV>, t: TermV) -> bool
    decreases t,
{
    if t.var == 1 {
        !names(vars, t.value)
    } else if t.var == 2 {
        (match t.left {
            Some(l) => free_of(vars, *l),
            None => true,
        }) && (match t.right {
            Some(r) => free_of(vars, *r),
            None => true,
        })
    } else {
        true
    }
}

/// Substituting for variables that do not occur leaves an expression
/// unchanged.
pub proof fn law_subst_free(to: TermV, vars: Seq<TermV>, what: TermV)
    requires
        free_of(vars, what),
    ensures
        subst(to, vars, what) == what,
    decreases what,
{
    if what.var == 2 {
        match what.left {
            Some(l) => law_subst_free(to, vars, *l),
            None => {},
        }
        match what.right {
            Some(r) => law_subst_free(to, vars, *r),
            None => {},
        }
    }
}

/// After removing the equations on `vars`, none is left on `vars`, and none
/// is marked as removed.
pub proof fn law_remove_leaves_none(eqs: Seq<EqTermV>, vars: Seq<TermV>)
    ensures
        forall|i: int| 0 <= i < remove_spec(eqs, vars).len() ==> #[trigger] remove_spec(eqs, vars)[i].vars != vars
            && remove_spec(eqs, vars)[i].vars[0].value != skull_text(),
{
    assert forall|i: int| 0 <= i < remove_spec(eqs, vars).len() implies #[trigger] remove_spec(eqs, vars)[i].vars != vars
        && remove_spec(eqs, vars)[i].vars[0].value != skull_text() by {
        eqs.lemma_filter_pred(kept_pred(vars), i);
        assert(kept(remove_spec(eqs, vars)[i], vars));
    }
}

/// A rule that does not apply leaves the expression as it was.
pub proof fn law_ignore_keeps(reg: TermV, rule: RuleV, fuel: nat)
    ensures
        unify_or_ignore_spec(reg, rule, fuel) matches Ok((t, applied)) ==> (!applied ==> t == reg),
        unify_spec(reg, rule, fuel) matches Ok((t, failed)) ==> (failed ==> t == reg),
{
}

/// A rewriting step in which no rule applies leaves the expression as it
/// was.
pub proof fn law_step_without_rule_keeps(head: TermV, norms: Seq<RuleV>, fuel: nat)
    ensures
        bfs_spec(head, norms, fuel) matches Ok((t, applied)) ==> (!applied ==> t == head),
    decreases head,
{
    match rules_try(head, norms, fuel, 0) {
        Ok(None) => {
            match head.left {
                Some(l) => {
                    law_step_without_rule_keeps(*l, norms, fuel);
                    assert(with_left(head, *l) == head);
                },
                None => {},
            }
            match head.right {
                Some(r) => {
                    law_step_without_rule_keeps(*r, norms, fuel);
                    assert(with_right(head, *r) == head);
                },
                None => {},
            }
        },
        _ => {},
    }
}

proof fn lemma_loop_fuel(u: Seq<EqTermV>, eqs: Seq<EqTermV>, t: Seq<EqTermV>, cur: Seq<EqTermV>, fuel: nat, more: nat)
    requires
        fuel <= more,
        unify_loop(u, eqs, t, cur, fuel) != Err::<(Seq<EqTermV>, bool), UnifyError>(UnifyError::OutOfFuel),
    ensures
        unify_loop(u, eqs, t, cur, more) == unify_loop(u, eqs, t, cur, fuel),
    decreases fuel,
{
    if u.len() > 0 && fuel > 0 {
        if let Some((e1, t1, c1, err)) = getcf_spec(u, eqs, t, cur) {
            if !err {
                lemma_loop_fuel(e1, e1, t1, c1, (fuel - 1) as nat, (more - 1) as nat);
            }
        }
    }
}

proof fn lemma_rules_try_fuel(head: TermV, norms: Seq<RuleV>, fuel: nat, more: nat, k: int)
    requires
        fuel <= more,
        rules_try(head, norms, fuel, k) != Err::<Option<TermV>, UnifyError>(UnifyError::OutOfFuel),
    ensures
        rules_try(head, norms, more, k) == rules_try(head, norms, fuel, k),
    decreases norms.len() - k,
{
    if 0 <= k < norms.len() {
        let r = norms[k];
        lemma_loop_fuel(start_eqs(head, r.left), Seq::empty(), Seq::empty(), Seq::empty(), fuel, more);
        if let Ok((t, err)) = unify_spec(head, r, fuel) {
            if err {
                lemma_rules_try_fuel(head, norms, fuel, more, k + 1);
            }
        }
    }
}

/// More fuel never changes a rewriting step that did not run out of it.
pub proof fn law_rewrite_fuel(head: TermV, norms: Seq<RuleV>, fuel: nat, more: nat)
    requires
        fuel <= more,
        bfs_spec(head, norms, fuel) != Err::<(TermV, bool), UnifyError>(UnifyError::OutOfFuel),
    ensures
        bfs_spec(head, norms, more) == bfs_spec(head, norms, fuel),
        forall|k: int| 0 <= k < norms.len() && unify_or_ignore_spec(head, norms[k], fuel)
            != Err::<(TermV, bool), UnifyError>(UnifyError::OutOfFuel)
            ==> #[trigger] unify_or_ignore_spec(head, norms[k], more) == unify_or_ignore_spec(head, norms[k], fuel),
    decreases head,
{
    assert forall|k: int| 0 <= k < norms.len() && unify_or_ignore_spec(head, norms[k], fuel)
        != Err::<(TermV, bool), UnifyError>(UnifyError::OutOfFuel)
        implies #[trigger] unify_or_ignore_spec(head, norms[k], more) == unify_or_ignore_spec(head, norms[k], fuel) by {
        lemma_loop_fuel(start_eqs(head, norms[k].left), Seq::empty(), Seq::empty(), Seq::empty(), fuel, more);
    }
    lemma_rules_try_fuel(head, norms, fuel, more, 0);
    if let Ok(None) = rules_try(head, norms, fuel, 0) {
        if let Some(l) = head.left {
            law_rewrite_fuel(*l, norms, fuel, more);
        }
        let right_reached = match head.left {
            Some(l) => bfs_spec(*l, norms, fuel) matches Ok((_, c)) && !c,
            None => true,
        };
        if right_reached {
            if let Some(r) = head.right {
                law_rewrite_fuel(*r, norms, fuel, more);
            }
        }
    }
}

/// More fuel never changes a run of rewriting rounds that did not run out
/// of it.
pub proof fn law_rounds_fuel(reg: TermV, norms: Seq<RuleV>, rounds: nat, fuel: nat, more: nat)
    requires
        fuel <= more,
        rounds_spec(reg, norms, rounds, fuel) != Err::<(TermV, bool, nat), UnifyError>(UnifyError::OutOfFuel),
    ensures
        rounds_spec(reg, norms, rounds, more) == rounds_spec(reg, norms, rounds, fuel),
    decreases rounds,
{
    if rounds > 0 {
        law_rewrite_fuel(reg, norms, fuel, more);
        if let Ok((t, changed)) = bfs_spec(reg, norms, fuel) {
            if changed {
                law_rounds_fuel(t, norms, (rounds - 1) as nat, fuel, more);
            }
        }
    }
}

/// No rule of `norms` applies at `h` itself: unifying `h` with the left
/// side of each of them fails.
pub open spec fn no_rule_at(h: TermV, norms: Seq<RuleV>, fuel: nat) -> bool {
    forall|k: int| 0 <= k < norms.len() ==> (#[trigger] unify_spec(h, norms[k], fuel)) is Ok
        && unify_spec(h, norms[k], fuel)->Ok_0.1
}

/// No rule of `norms` applies at `h` nor at any of its subexpressions.
pub open spec fn nowhere_applies(h: TermV, norms: Seq<RuleV>, fuel: nat) -> bool
    decreases h,
{
    &&& no_rule_at(h, norms, fuel)
    &&& match h.left {
        Some(l) => nowhere_applies(*l, norms, fuel),
        None => true,
    }
    &&& match h.right {
        Some(r) => nowhere_applies(*r, norms, fuel),
        None => true,
    }
}

proof fn lemma_rules_try_none(h: TermV, norms: Seq<RuleV>, fuel: nat, k: int)
    requires
        0 <= k,
    ensures
        (rules_try(h, norms, fuel, k) == Ok::<Option<TermV>, UnifyError>(None)) == (forall|m: int| k <= m < norms.len()
            ==> (#[trigger] unify_spec(h, norms[m], fuel)) is Ok && unify_spec(h, norms[m], fuel)->Ok_0.1),
    decreases norms.len() - k,
{
    if k < norms.len() {
        lemma_rules_try_none(h, norms, fuel, k + 1);
    }
}

/// A rewriting step leaves the expression unchanged and reports that no
/// rule applied exactly when no rule applies at the expression or at any of
/// its subexpressions.
pub proof fn law_step_none_iff_nowhere(head: TermV, norms: Seq<RuleV>, fuel: nat)
    ensures
        (bfs_spec(head, norms, fuel) == Ok::<(TermV, bool), UnifyError>((head, false))) == nowhere_applies(head, norms, fuel),
        bfs_spec(head, norms, fuel) matches Ok((t, applied)) ==> (!applied ==> nowhere_applies(head, norms, fuel)),
    decreases head,
{
    lemma_rules_try_none(head, norms, fuel, 0);
    law_step_without_rule_keeps(head, norms, fuel);
    match head.left {
        Some(l) => {
            law_step_none_iff_nowhere(*l, norms, fuel);
            law_step_without_rule_keeps(*l, norms, fuel);
            assert(with_left(head, *l) == head);
        },
        None => {},
    }
    match head.right {
        Some(r) => {
            law_step_none_iff_nowhere(*r, norms, fuel);
            law_step_without_rule_keeps(*r, norms, fuel);
            assert(with_right(head, *r) == head);
        },
        None => {},
    }
}

/// When no rule applies at the expression itself nor anywhere in its left
/// operand, a step rewrites the right operand: a rewriting there is kept
/// in the expression and reported.
pub proof fn law_step_rewrites_right(head: TermV, norms: Seq<RuleV>, fuel: nat, b: TermV)
    requires
        no_rule_at(head, norms, fuel),
        match head.left {
            Some(l) => nowhere_applies(*l, norms, fuel),
            None => true,
        },
        head.right matches Some(r) && bfs_spec(*r, norms, fuel) == Ok::<(TermV, bool), UnifyError>((b, true)),
    ensures
        bfs_spec(head, norms, fuel) == Ok::<(TermV, bool), UnifyError>((with_right(head, b), true)),
{
    lemma_rules_try_none(head, norms, fuel, 0);
    if let Some(l) = head.left {
        law_step_none_iff_nowhere(*l, norms, fuel);
        assert(with_left(head, *l) == head);
    }
}

/// When no rule applies at the expression itself, a step that rewrites the
/// left operand keeps that rewriting in the expression and reports it.
pub proof fn law_step_rewrites_left(head: TermV, norms: Seq<RuleV>, fuel: nat, a: TermV)
    requires
        no_rule_at(head, norms, fuel),
        head.left matches Some(l) && bfs_spec(*l, norms, fuel) == Ok::<(TermV, bool), UnifyError>((a, true)),
    ensures
        bfs_spec(head, norms, fuel) == Ok::<(TermV, bool), UnifyError>((with_left(head, a), true)),
{
    lemma_rules_try_none(head, norms, fuel, 0);
}

proof fn lemma_rules_try_first(h: TermV, norms: Seq<RuleV>, fuel: nat, j: int, k: int, t: TermV)
    requires
        0 <= j <= k < norms.len(),
        forall|m: int| j <= m < k ==> (#[trigger] unify_spec(h, norms[m], fuel)) is Ok && unify_spec(h, norms[m], fuel)->Ok_0.1,
        unify_spec(h, norms[k], fuel) == Ok::<(TermV, bool), UnifyError>((t, false)),
    ensures
        rules_try(h, norms, fuel, j) == Ok::<Option<TermV>, UnifyError>(Some(t)),
    decreases k - j,
{
    if j < k {
        lemma_rules_try_first(h, norms, fuel, j + 1, k, t);
    }
}

/// A step rewrites at the expression itself by the first rule that applies
/// there: when the rules before rule `k` do not apply and rule `k` rewrites
/// the expression to `t`, the step gives `t` and reports it.
pub proof fn law_step_rewrites_root(head: TermV, norms: Seq<RuleV>, fuel: nat, k: int, t: TermV)
    requires
        0 <= k < norms.len(),
        forall|m: int| 0 <= m < k ==> (#[trigger] unify_spec(head, norms[m], fuel)) is Ok && unify_spec(head, norms[m], fuel)->Ok_0.1,
        unify_spec(head, norms[k], fuel) == Ok::<(TermV, bool), UnifyError>((t, false)),
    ensures
        bfs_spec(head, norms, fuel) == Ok::<(TermV, bool), UnifyError>((t, true)),
{
    lemma_rules_try_first(head, norms, fuel, 0, k, t);
}

} // verus!
