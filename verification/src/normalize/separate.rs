//! Splitting a list of expressions that must be equal into a common skeleton
//! and the equations that its variables must satisfy.
use vstd::prelude::*;
use crate::normalize::regex::{Term, TermV, terms_view, clone_term, clone_terms, eps_text, op_node, eps_node, with_left};
use crate::normalize::unify::{EqTerm, EqTermV, eqs_view, clone_eqs, insert_terms, insert_terms_spec, eqs_pair_view};
use crate::text::string_of;

verus! {

/// The height of an expression tree.
pub open spec fn height(t: TermV) -> nat
    decreases t,
{
    let hl = match t.left {
        Some(l) => height(*l),
        None => 0,
    };
    let hr = match t.right {
        Some(r) => height(*r),
        None => 0,
    };
    1 + if hl >= hr { hl } else { hr }
}

/// The greatest height in a list of expressions.
pub open spec fn max_height(ts: Seq<TermV>) -> nat
    decreases ts.len(),
{
    if ts.len() == 0 {
        0
    } else {
        let a = max_height(ts.drop_last());
        let b = height(ts.last());
        if a >= b { a } else { b }
    }
}

proof fn lemma_max_height_ge(ts: Seq<TermV>, k: int)
    requires
        0 <= k < ts.len(),
    ensures
        height(ts[k]) <= max_height(ts),
    decreases ts.len(),
{
    if k < ts.len() - 1 {
        lemma_max_height_ge(ts.drop_last(), k);
    }
}

proof fn lemma_max_height_le(ts: Seq<TermV>, h: nat)
    requires
        forall|k: int| 0 <= k < ts.len() ==> height(#[trigger] ts[k]) <= h,
    ensures
        max_height(ts) <= h,
    decreases ts.len(),
{
    if ts.len() > 0 {
        lemma_max_height_le(ts.drop_last(), h);
    }
}

pub proof fn lemma_max_height_filter(ts: Seq<TermV>, p: spec_fn(TermV) -> bool)
    ensures
        max_height(ts.filter(p)) <= max_height(ts),
    decreases ts.len(),
{
    reveal(Seq::filter);
    if ts.len() > 0 {
        lemma_max_height_filter(ts.drop_last(), p);
        let sub = ts.drop_last().filter(p);
        if p(ts.last()) {
            assert(sub.push(ts.last()).drop_last() =~= sub);
        }
    }
}

/// An operator node other than the empty word.
pub open spec fn is_op(t: TermV) -> bool {
    t.var == 2 && t.value != eps_text()
}

pub open spec fn op_pred() -> spec_fn(TermV) -> bool {
    |t: TermV| is_op(t)
}

pub open spec fn var_pred() -> spec_fn(TermV) -> bool {
    |t: TermV| !is_op(t) && t.var == 1
}

pub open spec fn const_pred() -> spec_fn(TermV) -> bool {
    |t: TermV| !is_op(t) && t.var != 1
}

/// The operators of `ts`, in order.
pub open spec fn ops_of(ts: Seq<TermV>) -> Seq<TermV> {
    ts.filter(op_pred())
}

/// The variables of `ts`, in order.
pub open spec fn vars_of(ts: Seq<TermV>) -> Seq<TermV> {
    ts.filter(var_pred())
}

/// The rest of `ts`: letters of the expression and empty words.
pub open spec fn consts_of(ts: Seq<TermV>) -> Seq<TermV> {
    ts.filter(const_pred())
}

/// Operators `k` and `l` of `ts` disagree, the first having a name.
pub open spec fn clash_pair(ts: Seq<TermV>, k: int, l: int) -> bool {
    &&& 0 <= k < l < ts.len()
    &&& is_op(ts[k])
    &&& is_op(ts[l])
    &&& ts[k].value.len() > 0
    &&& ts[l].value != ts[k].value
}

/// Two operators of `ts` disagree: an operator differs from an earlier one
/// that has a name.
pub open spec fn ops_clash(ts: Seq<TermV>) -> bool {
    exists|k: int, l: int| #[trigger] clash_pair(ts, k, l)
}

/// The operator `(eps)` as an executable string.
fn eps_string() -> (res: String)
    ensures
        res@ == eps_text(),
{
    let s = string_of(&['(', 'e', 'p', 's', ')']);
    assert(s@ =~= eps_text());
    s
}

/// Whether a node is an operator other than the empty word.
fn is_op_term(t: &Term) -> (res: bool)
    ensures
        res == is_op(t@),
{
    t.var == 2 && t.value != eps_string()
}

/// Sorts `terms` into operators, variables and the rest.
fn classify(terms: &Vec<Term>) -> (res: (Vec<Term>, Vec<Term>, Vec<Term>))
    ensures
        terms_view(res.0@) == ops_of(terms_view(terms@)),
        terms_view(res.1@) == vars_of(terms_view(terms@)),
        terms_view(res.2@) == consts_of(terms_view(terms@)),
{
    let ghost tv = terms_view(terms@);
    let mut ops: Vec<Term> = Vec::new();
    let mut vars: Vec<Term> = Vec::new();
    let mut consts: Vec<Term> = Vec::new();
    let mut i: usize = 0;
    while i < terms.len()
        invariant
            i <= terms.len(),
            tv == terms_view(terms@),
            terms_view(ops@) == tv.take(i as int).filter(op_pred()),
            terms_view(vars@) == tv.take(i as int).filter(var_pred()),
            terms_view(consts@) == tv.take(i as int).filter(const_pred()),
        decreases terms.len() - i,
    {
        let t = &terms[i];
        let ghost x = tv[i as int];
        assert(x == t@);
        assert(tv.take(i + 1) =~= tv.take(i as int).push(x));
        proof {
            tv.take(i as int).lemma_filter_push(x, op_pred());
            tv.take(i as int).lemma_filter_push(x, var_pred());
            tv.take(i as int).lemma_filter_push(x, const_pred());
        }
        let ghost po = terms_view(ops@);
        let ghost pv = terms_view(vars@);
        let ghost pc = terms_view(consts@);
        let c = clone_term(t);
        if is_op_term(t) {
            ops.push(c);
            assert(terms_view(ops@) =~= po.push(x));
        } else if t.var == 1 {
            vars.push(c);
            assert(terms_view(vars@) =~= pv.push(x));
        } else {
            consts.push(c);
            assert(terms_view(consts@) =~= pc.push(x));
        }
        i += 1;
    }
    assert(tv.take(i as int) =~= tv);
    (ops, vars, consts)
}

/// Whether two operators of `terms` disagree (see [`ops_clash`]).
fn clash(terms: &Vec<Term>) -> (res: bool)
    ensures
        res == ops_clash(terms_view(terms@)),
{
    let ghost tv = terms_view(terms@);
    let mut l: usize = 0;
    while l < terms.len()
        invariant
            l <= terms.len(),
            tv == terms_view(terms@),
            forall|k: int, l1: int| l1 < l ==> !#[trigger] clash_pair(tv, k, l1),
        decreases terms.len() - l,
    {
        let mut k: usize = 0;
        while k < l
            invariant
                k <= l < terms.len(),
                tv == terms_view(terms@),
                forall|k1: int, l1: int| l1 < l ==> !#[trigger] clash_pair(tv, k1, l1),
                forall|k1: int| k1 < k ==> !#[trigger] clash_pair(tv, k1, l as int),
            decreases l - k,
        {
            assert(tv[k as int] == terms@[k as int]@);
            assert(tv[l as int] == terms@[l as int]@);
            if is_op_term(&terms[k]) && is_op_term(&terms[l]) && crate::text::char_len(&terms[k].value) > 0 && terms[l].value != terms[k].value {
                assert(clash_pair(tv, k as int, l as int));
                return true;
            }
            assert(!clash_pair(tv, k as int, l as int));
            k += 1;
        }
        l += 1;
    }
    false
}

/// Every operator of `ops` has a left operand.
pub open spec fn all_left(ops: Seq<TermV>) -> bool {
    forall|k: int| 0 <= k < ops.len() ==> (#[trigger] ops[k]).left is Some
}

/// Some operator of `ops` has a left operand.
pub open spec fn any_left(ops: Seq<TermV>) -> bool {
    exists|k: int| 0 <= k < ops.len() && (#[trigger] ops[k]).left is Some
}

/// Every operator of `ops` has a right operand.
pub open spec fn all_right(ops: Seq<TermV>) -> bool {
    forall|k: int| 0 <= k < ops.len() ==> (#[trigger] ops[k]).right is Some
}

/// Some operator of `ops` has a right operand.
pub open spec fn any_right(ops: Seq<TermV>) -> bool {
    exists|k: int| 0 <= k < ops.len() && (#[trigger] ops[k]).right is Some
}

/// The left operands of `ops`.
pub open spec fn lefts(ops: Seq<TermV>) -> Seq<TermV> {
    ops.map_values(|t: TermV| *t.left.unwrap())
}

/// The right operands of `ops`.
pub open spec fn rights(ops: Seq<TermV>) -> Seq<TermV> {
    ops.map_values(|t: TermV| *t.right.unwrap())
}

/// `u` with right operand `r`.
pub open spec fn with_right(u: TermV, r: TermV) -> TermV {
    TermV { value: u.value, var: u.var, left: u.left, right: Some(Box::new(r)) }
}

pub proof fn lemma_lefts_lower(ops: Seq<TermV>)
    requires
        ops.len() > 0,
        all_left(ops),
    ensures
        max_height(lefts(ops)) < max_height(ops),
{
    lemma_max_height_ge(ops, 0);
    assert forall|k: int| 0 <= k < lefts(ops).len() implies height(#[trigger] lefts(ops)[k]) <= (max_height(ops) - 1) as nat by {
        assert(ops[k].left is Some);
        lemma_max_height_ge(ops, k);
    }
    lemma_max_height_le(lefts(ops), (max_height(ops) - 1) as nat);
}

pub proof fn lemma_rights_lower(ops: Seq<TermV>)
    requires
        ops.len() > 0,
        all_right(ops),
    ensures
        max_height(rights(ops)) < max_height(ops),
{
    lemma_max_height_ge(ops, 0);
    assert forall|k: int| 0 <= k < rights(ops).len() implies height(#[trigger] rights(ops)[k]) <= (max_height(ops) - 1) as nat by {
        assert(ops[k].right is Some);
        lemma_max_height_ge(ops, k);
    }
    lemma_max_height_le(rights(ops), (max_height(ops) - 1) as nat);
}

/// Whether every operator has a left operand, and whether some has one.
fn left_presence(ops: &Vec<Term>) -> (res: (bool, bool))
    ensures
        res.0 == all_left(terms_view(ops@)),
        res.1 == any_left(terms_view(ops@)),
{
    let ghost ov = terms_view(ops@);
    let mut all = true;
    let mut any = false;
    let mut i: usize = 0;
    while i < ops.len()
        invariant
            i <= ops.len(),
            ov == terms_view(ops@),
            all == forall|k: int| 0 <= k < i ==> (#[trigger] ov[k]).left is Some,
            any == exists|k: int| 0 <= k < i && (#[trigger] ov[k]).left is Some,
        decreases ops.len() - i,
    {
        assert(ov[i as int] == ops@[i as int]@);
        if ops[i].left.is_some() {
            any = true;
        } else {
            all = false;
        }
        i += 1;
    }
    (all, any)
}

/// Whether every operator has a right operand, and whether some has one.
fn right_presence(ops: &Vec<Term>) -> (res: (bool, bool))
    ensures
        res.0 == all_right(terms_view(ops@)),
        res.1 == any_right(terms_view(ops@)),
{
    let ghost ov = terms_view(ops@);
    let mut all = true;
    let mut any = false;
    let mut i: usize = 0;
    while i < ops.len()
        invariant
            i <= ops.len(),
            ov == terms_view(ops@),
            all == forall|k: int| 0 <= k < i ==> (#[trigger] ov[k]).right is Some,
            any == exists|k: int| 0 <= k < i && (#[trigger] ov[k]).right is Some,
        decreases ops.len() - i,
    {
        assert(ov[i as int] == ops@[i as int]@);
        if ops[i].right.is_some() {
            any = true;
        } else {
            all = false;
        }
        i += 1;
    }
    (all, any)
}

/// The left operands of operators that all have one.
fn left_operands(ops: &Vec<Term>) -> (res: Vec<Term>)
    requires
        all_left(terms_view(ops@)),
    ensures
        terms_view(res@) == lefts(terms_view(ops@)),
{
    let ghost ov = terms_view(ops@);
    let mut res: Vec<Term> = Vec::new();
    let mut i: usize = 0;
    while i < ops.len()
        invariant
            i <= ops.len(),
            ov == terms_view(ops@),
            all_left(ov),
            terms_view(res@) == lefts(ov).take(i as int),
        decreases ops.len() - i,
    {
        assert(ov[i as int] == ops@[i as int]@);
        assert(ov[i as int].left is Some);
        let ghost prev = terms_view(res@);
        match &ops[i].left {
            Some(l) => {
                let c = clone_term(l);
                res.push(c);
                assert(terms_view(res@) =~= prev.push(c@));
            },
            None => {},
        }
        assert(lefts(ov).take(i + 1) =~= lefts(ov).take(i as int).push(lefts(ov)[i as int]));
        i += 1;
    }
    assert(lefts(ov).take(i as int) =~= lefts(ov));
    res
}

/// The right operands of operators that all have one.
fn right_operands(ops: &Vec<Term>) -> (res: Vec<Term>)
    requires
        all_right(terms_view(ops@)),
    ensures
        terms_view(res@) == rights(terms_view(ops@)),
{
    let ghost ov = terms_view(ops@);
    let mut res: Vec<Term> = Vec::new();
    let mut i: usize = 0;
    while i < ops.len()
        invariant
            i <= ops.len(),
            ov == terms_view(ops@),
            all_right(ov),
            terms_view(res@) == rights(ov).take(i as int),
        decreases ops.len() - i,
    {
        assert(ov[i as int] == ops@[i as int]@);
        assert(ov[i as int].right is Some);
        let ghost prev = terms_view(res@);
        match &ops[i].right {
            Some(r) => {
                let c = clone_term(r);
                res.push(c);
                assert(terms_view(res@) =~= prev.push(c@));
            },
            None => {},
        }
        assert(rights(ov).take(i + 1) =~= rights(ov).take(i as int).push(rights(ov)[i as int]));
        i += 1;
    }
    assert(rights(ov).take(i as int) =~= rights(ov));
    res
}

/// All of `cs` have the name of the first.
pub open spec fn same_values(cs: Seq<TermV>) -> bool {
    forall|k: int| 0 <= k < cs.len() ==> (#[trigger] cs[k]).value == cs[0].value
}

fn same_values_exec(cs: &Vec<Term>) -> (res: bool)
    requires
        cs@.len() > 0,
    ensures
        res == same_values(terms_view(cs@)),
{
    let ghost cv = terms_view(cs@);
    let mut i: usize = 0;
    while i < cs.len()
        invariant
            i <= cs.len(),
            cs@.len() > 0,
            cv == terms_view(cs@),
            forall|k: int| 0 <= k < i ==> (#[trigger] cv[k]).value == cv[0].value,
        decreases cs.len() - i,
    {
        assert(cv[i as int] == cs@[i as int]@);
        assert(cv[0] == cs@[0]@);
        if cs[i].value != cs[0].value {
            assert(cv[i as int].value != cv[0].value);
            return false;
        }
        i += 1;
    }
    true
}

/// Recording in turn the equations of `new`, from index `k` on, until one
/// fails (see [`insert_terms_spec`]).
pub open spec fn insert_all(eqs: Seq<EqTermV>, new: Seq<EqTermV>, current: Seq<EqTermV>, k: int) -> Option<(Seq<EqTermV>, Seq<EqTermV>, bool)>
    decreases new.len() - k,
{
    if k < 0 || k >= new.len() {
        Some((eqs, current, false))
    } else {
        match insert_terms_spec(eqs, new[k].vars, new[k].terms, current) {
            None => None,
            Some((e1, c1, err)) => if err {
                Some((e1, c1, true))
            } else {
                insert_all(e1, new, c1, k + 1)
            },
        }
    }
}

/// Records in turn the equations of `new` (see [`insert_all`]).
#[verifier::loop_isolation(false)]
fn insert_all_exec(F: Vec<EqTerm>, new: &Vec<EqTerm>, current: Vec<EqTerm>) -> (res: Option<(Vec<EqTerm>, Vec<EqTerm>, bool)>)
    ensures
        eqs_pair_view(res) == insert_all(eqs_view(F@), eqs_view(new@), eqs_view(current@), 0),
{
    let ghost goal = insert_all(eqs_view(F@), eqs_view(new@), eqs_view(current@), 0);
    let ghost nv = eqs_view(new@);
    let mut F = F;
    let mut current = current;
    let mut k: usize = 0;
    while k < new.len()
        invariant
            k <= new.len(),
            nv == eqs_view(new@),
            goal == insert_all(eqs_view(F@), nv, eqs_view(current@), k as int),
        decreases new.len() - k,
    {
        assert(nv[k as int] == new@[k as int]@);
        let ghost fb = eqs_view(F@);
        let ghost cb = eqs_view(current@);
        let r = insert_terms(F, clone_terms(&new[k].vars), clone_terms(&new[k].terms), current);
        assert(insert_all(fb, nv, cb, k as int) == match insert_terms_spec(fb, nv[k as int].vars, nv[k as int].terms, cb) {
            None => None,
            Some((e1, c1, err)) => if err {
                Some((e1, c1, true))
            } else {
                insert_all(e1, nv, c1, k + 1)
            },
        });
        match r {
            None => {
                return None;
            },
            Some((f1, c1, err)) => {
                if err {
                    return Some((f1, c1, true));
                }
                F = f1;
                current = c1;
            },
        }
        k += 1;
    }
    assert(insert_all(eqs_view(F@), nv, eqs_view(current@), k as int) == Some((eqs_view(F@), eqs_view(current@), false)));
    Some((F, current, false))
}

/// Splitting the expressions `ts`, which must be made equal, given the
/// equations `eqs` and the list `current` of recorded equations. The result
/// is the common skeleton, the new equations and list, and whether the
/// expressions cannot be made equal; `None` where an index goes out of range.
/// Operators must agree and are split operand by operand; letters of the
/// expression must agree among themselves; variables are bound, in an
/// equation, to the letters, or to the operators (whose operands are then
/// split in turn, when there are several).
pub open spec fn sep_spec(ts: Seq<TermV>, eqs: Seq<EqTermV>, cur: Seq<EqTermV>) -> Option<(TermV, Seq<EqTermV>, Seq<EqTermV>, bool)>
    decreases max_height(ts), 2nat,
{
    let eps = op_node(eps_text());
    let ops = ops_of(ts);
    let vs = vars_of(ts);
    let cs = consts_of(ts);
    if ops_clash(ts) {
        Some((eps, eqs, cur, true))
    } else if vs.len() == 0 && cs.len() == 0 {
        proof {
            lemma_max_height_filter(ts, op_pred());
        }
        sep_ops(ops, eqs, cur)
    } else if vs.len() == 0 {
        if ops.len() > 0 {
            Some((eps, eqs, cur, true))
        } else {
            Some((cs[0], eqs, cur, !same_values(cs)))
        }
    } else if cs.len() != 0 && ops.len() != 0 {
        Some((eps, eqs, cur, true))
    } else if cs.len() != 0 {
        match insert_terms_spec(eqs, vs, cs, cur) {
            None => None,
            Some((e1, c1, err)) => Some((cs[0], e1, c1, err)),
        }
    } else {
        proof {
            lemma_max_height_filter(ts, op_pred());
        }
        sep_var(vs[0], ops, eqs, cur)
    }
}

/// Splitting operators that agree: the skeleton is the first operator with
/// the split of the left operands and then of the right ones, the
/// equations of each split being recorded in turn. Operators of which only
/// some have an operand on a side cannot be made equal.
pub open spec fn sep_ops(ops: Seq<TermV>, eqs: Seq<EqTermV>, cur: Seq<EqTermV>) -> Option<(TermV, Seq<EqTermV>, Seq<EqTermV>, bool)>
    decreases max_height(ops), 1nat,
{
    if ops.len() == 0 {
        None
    } else {
        let c = ops[0];
        if !all_left(ops) {
            Some((c, eqs, cur, any_left(ops)))
        } else {
            proof {
                lemma_lefts_lower(ops);
            }
            match sep_spec(lefts(ops), eqs, cur) {
                None => None,
                Some((l, new, c1, err)) => if err {
                    Some((c, eqs, c1, true))
                } else {
                    let cl = with_left(c, l);
                    match insert_all(eqs, new, c1, 0) {
                        None => None,
                        Some((e2, c2, err2)) => if err2 {
                            Some((cl, e2, c2, true))
                        } else if !all_right(ops) {
                            Some((cl, e2, c2, any_right(ops)))
                        } else {
                            proof {
                                lemma_rights_lower(ops);
                            }
                            match sep_spec(rights(ops), e2, c2) {
                                None => None,
                                Some((r, new2, c3, err3)) => if err3 {
                                    Some((cl, e2, c3, true))
                                } else {
                                    match insert_all(e2, new2, c3, 0) {
                                        None => None,
                                        Some((e4, c4, err4)) => Some((with_right(cl, r), e4, c4, err4)),
                                    }
                                }
                            }
                        },
                    }
                },
            }
        }
    }
}

/// Splitting the operands `n`, keeping only the equations, which are
/// recorded in turn.
pub open spec fn sep_insert(n: Seq<TermV>, eqs: Seq<EqTermV>, cur: Seq<EqTermV>) -> Option<(Seq<EqTermV>, Seq<EqTermV>, bool)>
    decreases max_height(n), 3nat,
{
    match sep_spec(n, eqs, cur) {
        None => None,
        Some((_, new, c1, err)) => if err {
            Some((eqs, c1, true))
        } else {
            insert_all(eqs, new, c1, 0)
        },
    }
}

/// A variable `v` against operators: `v` is bound to the operators, then
/// their left operands and their right operands, when there are several,
/// are split and the equations recorded.
pub open spec fn sep_var(v: TermV, ops: Seq<TermV>, eqs: Seq<EqTermV>, cur: Seq<EqTermV>) -> Option<(TermV, Seq<EqTermV>, Seq<EqTermV>, bool)>
    decreases max_height(ops), 1nat,
{
    match insert_terms_spec(eqs, seq![v], ops, cur) {
        None => None,
        Some((e1, c1, err)) => if err {
            Some((v, e1, c1, true))
        } else if !all_left(ops) && any_left(ops) {
            Some((v, e1, c1, true))
        } else {
            let s1 = if all_left(ops) && ops.len() > 1 {
                proof {
                    lemma_lefts_lower(ops);
                }
                sep_insert(lefts(ops), e1, c1)
            } else {
                Some((e1, c1, false))
            };
            match s1 {
                None => None,
                Some((e2, c2, err2)) => if err2 {
                    Some((v, e2, c2, true))
                } else if !all_right(ops) && any_right(ops) {
                    Some((v, e2, c2, true))
                } else {
                    let s2 = if all_right(ops) && ops.len() > 1 {
                        proof {
                            lemma_rights_lower(ops);
                        }
                        sep_insert(rights(ops), e2, c2)
                    } else {
                        Some((e2, c2, false))
                    };
                    match s2 {
                        None => None,
                        Some((e3, c3, err3)) => Some((v, e3, c3, err3)),
                    }
                },
            }
        },
    }
}

/// The value of a result of [`separateCF`].
pub open spec fn sep_view(r: Option<(Term, Vec<EqTerm>, Vec<EqTerm>, bool)>) -> Option<(TermV, Seq<EqTermV>, Seq<EqTermV>, bool)> {
    match r {
        Some((t, a, b, c)) => Some((t@, eqs_view(a@), eqs_view(b@), c)),
        None => None,
    }
}

/// Splits expressions that must be made equal (see [`sep_spec`]).
pub fn separateCF(terms: Vec<Term>, F: Vec<EqTerm>, current: Vec<EqTerm>) -> (res: Option<(Term, Vec<EqTerm>, Vec<EqTerm>, bool)>)
    ensures
        sep_view(res) == sep_spec(terms_view(terms@), eqs_view(F@), eqs_view(current@)),
    decreases max_height(terms_view(terms@)), 2nat,
{
    let ghost tv = terms_view(terms@);
    let (ops, vs, cs) = classify(&terms);
    if clash(&terms) {
        return Some((eps_node(), F, current, true));
    }
    if vs.len() == 0 && cs.len() == 0 {
        proof {
            lemma_max_height_filter(tv, op_pred());
        }
        return sep_ops_exec(ops, F, current);
    }
    if vs.len() == 0 {
        if ops.len() > 0 {
            return Some((eps_node(), F, current, true));
        }
        let c = clone_term(&cs[0]);
        let same = same_values_exec(&cs);
        return Some((c, F, current, !same));
    }
    if cs.len() != 0 && ops.len() != 0 {
        return Some((eps_node(), F, current, true));
    }
    if cs.len() != 0 {
        let c = clone_term(&cs[0]);
        let r = insert_terms(F, vs, cs, current);
        return match r {
            None => None,
            Some((f1, c1, err)) => Some((c, f1, c1, err)),
        };
    }
    proof {
        lemma_max_height_filter(tv, op_pred());
    }
    let v = clone_term(&vs[0]);
    sep_var_exec(v, ops, F, current)
}

/// Splits operators that agree (see [`sep_ops`]).
fn sep_ops_exec(ops: Vec<Term>, F: Vec<EqTerm>, current: Vec<EqTerm>) -> (res: Option<(Term, Vec<EqTerm>, Vec<EqTerm>, bool)>)
    ensures
        sep_view(res) == sep_ops(terms_view(ops@), eqs_view(F@), eqs_view(current@)),
    decreases max_height(terms_view(ops@)), 1nat,
{
    let ghost ov = terms_view(ops@);
    if ops.len() == 0 {
        return None;
    }
    let mut c = clone_term(&ops[0]);
    assert(ov[0] == ops@[0]@);
    let (al, an) = left_presence(&ops);
    if !al {
        return Some((c, F, current, an));
    }
    proof {
        lemma_lefts_lower(ov);
    }
    let n = left_operands(&ops);
    let r = separateCF(n, clone_eqs(&F), current);
    let (l, new, c1, err) = match r {
        None => {
            return None;
        },
        Some(x) => x,
    };
    if err {
        return Some((c, F, c1, true));
    }
    let ghost cv0 = c@;
    let ghost lv = l@;
    c.left = Some(Box::new(l));
    assert(c@ == with_left(cv0, lv));
    let (f2, c2, err2) = match insert_all_exec(F, &new, c1) {
        None => {
            return None;
        },
        Some(x) => x,
    };
    if err2 {
        return Some((c, f2, c2, true));
    }
    let (ar, anr) = right_presence(&ops);
    if !ar {
        return Some((c, f2, c2, anr));
    }
    proof {
        lemma_rights_lower(ov);
    }
    let n2 = right_operands(&ops);
    let r2 = separateCF(n2, clone_eqs(&f2), c2);
    let (rt, new2, c3, err3) = match r2 {
        None => {
            return None;
        },
        Some(x) => x,
    };
    if err3 {
        return Some((c, f2, c3, true));
    }
    let ghost cv1 = c@;
    let ghost rv = rt@;
    c.right = Some(Box::new(rt));
    assert(c@ == with_right(cv1, rv));
    match insert_all_exec(f2, &new2, c3) {
        None => None,
        Some((f4, c4, err4)) => Some((c, f4, c4, err4)),
    }
}

/// Splits operands and records the equations (see [`sep_insert`]).
fn sep_insert_exec(n: Vec<Term>, F: Vec<EqTerm>, current: Vec<EqTerm>) -> (res: Option<(Vec<EqTerm>, Vec<EqTerm>, bool)>)
    ensures
        eqs_pair_view(res) == sep_insert(terms_view(n@), eqs_view(F@), eqs_view(current@)),
    decreases max_height(terms_view(n@)), 3nat,
{
    let r = separateCF(n, clone_eqs(&F), current);
    match r {
        None => None,
        Some((_, new, c1, err)) => {
            if err {
                Some((F, c1, true))
            } else {
                insert_all_exec(F, &new, c1)
            }
        },
    }
}

/// A variable against operators (see [`sep_var`]).
fn sep_var_exec(v: Term, ops: Vec<Term>, F: Vec<EqTerm>, current: Vec<EqTerm>) -> (res: Option<(Term, Vec<EqTerm>, Vec<EqTerm>, bool)>)
    ensures
        sep_view(res) == sep_var(v@, terms_view(ops@), eqs_view(F@), eqs_view(current@)),
    decreases max_height(terms_view(ops@)), 1nat,
{
    let ghost ov = terms_view(ops@);
    let vv = vec![clone_term(&v)];
    assert(terms_view(vv@) =~= seq![v@]);
    let (e1, c1, err) = match insert_terms(F, vv, clone_terms(&ops), current) {
        None => {
            return None;
        },
        Some(x) => x,
    };
    if err {
        return Some((v, e1, c1, true));
    }
    let (al, an) = left_presence(&ops);
    if !al && an {
        return Some((v, e1, c1, true));
    }
    let (e2, c2) = if al && ops.len() > 1 {
        proof {
            lemma_lefts_lower(ov);
        }
        let n = left_operands(&ops);
        match sep_insert_exec(n, e1, c1) {
            None => {
                return None;
            },
            Some((e2, c2, err2)) => {
                if err2 {
                    return Some((v, e2, c2, true));
                }
                (e2, c2)
            },
        }
    } else {
        (e1, c1)
    };
    let (ar, anr) = right_presence(&ops);
    if !ar && anr {
        return Some((v, e2, c2, true));
    }
    if ar && ops.len() > 1 {
        proof {
            lemma_rights_lower(ov);
        }
        let n2 = right_operands(&ops);
        return match sep_insert_exec(n2, e2, c2) {
            None => None,
            Some((e3, c3, err3)) => Some((v, e3, c3, err3)),
        };
    }
    Some((v, e2, c2, false))
}

} // verus!
