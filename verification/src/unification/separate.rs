//! Splitting terms that must be made equal into their common part and the
//! equations their variables must satisfy.
use vstd::prelude::*;
use crate::unification::term::{Term, TermV, terms_view, clone_term, clone_terms, lemma_children_view};
use crate::unification::system::{EqTerm, EqTermV, eqs_view, clone_eqs, append_F, append_F_spec, extract_vars, extract_list};
use crate::text::char_len;

verus! {

/// Why two terms cannot be unified, or why solving stopped.
#[derive(Clone, Copy, Debug, PartialEq, Eq)]
pub enum UnifyFailure {
    /// Two constructors differ in name or in number of arguments.
    Mismatch,
    /// No equation can be solved next: the variables occur in one another.
    Cycle,
    /// A step indexes out of range or overflows.
    Undefined,
    /// Solving took more steps than allowed.
    OutOfFuel,
}

/// The height of a term.
pub open spec fn height(t: TermV) -> nat
    decreases t,
{
    1 + max_height(t.children)
}

/// The greatest height among `ts`.
pub open spec fn max_height(ts: Seq<TermV>) -> nat
    decreases ts,
{
    if ts.len() == 0 {
        0
    } else {
        let a = max_height(ts.subrange(0, ts.len() - 1));
        let b = height(ts[ts.len() - 1]);
        if a >= b { a } else { b }
    }
}

proof fn lemma_max_height_ge(ts: Seq<TermV>, k: int)
    requires
        0 <= k < ts.len(),
    ensures
        height(ts[k]) <= max_height(ts),
    decreases ts.len(),
{
    if k < ts.len() - 1 {
        let pre = ts.subrange(0, ts.len() - 1);
        lemma_max_height_ge(pre, k);
        assert(pre[k] == ts[k]);
    }
}

proof fn lemma_max_height_le(ts: Seq<TermV>, h: nat)
    requires
        forall|k: int| 0 <= k < ts.len() ==> height(#[trigger] ts[k]) <= h,
    ensures
        max_height(ts) <= h,
    decreases ts.len(),
{
    if ts.len() > 0 {
        let pre = ts.subrange(0, ts.len() - 1);
        assert forall|k: int| 0 <= k < pre.len() implies height(#[trigger] pre[k]) <= h by {
            assert(pre[k] == ts[k]);
        }
        lemma_max_height_le(pre, h);
    }
}

pub proof fn lemma_max_height_filter(ts: Seq<TermV>, p: spec_fn(TermV) -> bool)
    ensures
        max_height(ts.filter(p)) <= max_height(ts),
{
    assert forall|k: int| 0 <= k < ts.filter(p).len() implies height(#[trigger] ts.filter(p)[k]) <= max_height(ts) by {
        lemma_filter_member(ts, p, k);
        let j = choose|j: int| 0 <= j < ts.len() && ts[j] == ts.filter(p)[k];
        lemma_max_height_ge(ts, j);
    }
    lemma_max_height_le(ts.filter(p), max_height(ts));
}

proof fn lemma_filter_member(ts: Seq<TermV>, p: spec_fn(TermV) -> bool, k: int)
    requires
        0 <= k < ts.filter(p).len(),
    ensures
        exists|j: int| 0 <= j < ts.len() && ts[j] == ts.filter(p)[k],
    decreases ts.len(),
{
    reveal(Seq::filter);
    if ts.len() > 0 {
        let sub = ts.drop_last().filter(p);
        if p(ts.last()) && k == sub.len() {
            assert(ts.filter(p)[k] == ts[ts.len() - 1]);
        } else {
            assert(ts.filter(p)[k] == sub[k]);
            lemma_filter_member(ts.drop_last(), p, k);
            let j = choose|j: int| 0 <= j < ts.drop_last().len() && ts.drop_last()[j] == sub[k];
            assert(ts[j] == ts.filter(p)[k]);
        }
    }
}

pub open spec fn cons_pred() -> spec_fn(TermV) -> bool {
    |t: TermV| t.var == 0
}

pub open spec fn var_pred() -> spec_fn(TermV) -> bool {
    |t: TermV| t.var != 0
}

/// The constructors of `ts`, in order.
pub open spec fn consts_of(ts: Seq<TermV>) -> Seq<TermV> {
    ts.filter(cons_pred())
}

/// The variables of `ts`, in order.
pub open spec fn vars_of(ts: Seq<TermV>) -> Seq<TermV> {
    ts.filter(var_pred())
}

/// Constructors `k` and `l` of `ts` disagree in name or number of
/// arguments, the first having a name.
pub open spec fn clash_pair(ts: Seq<TermV>, k: int, l: int) -> bool {
    &&& 0 <= k < l < ts.len()
    &&& ts[k].var == 0
    &&& ts[l].var == 0
    &&& ts[k].value.len() > 0
    &&& (ts[l].value != ts[k].value || ts[l].children.len() != ts[k].children.len())
}

/// Some constructor of `ts` disagrees with an earlier named one.
pub open spec fn cons_clash(ts: Seq<TermV>) -> bool {
    exists|k: int, l: int| #[trigger] clash_pair(ts, k, l)
}

/// The first constructor of `cs` with a name.
pub open spec fn first_named(cs: Seq<TermV>, i: int) -> Option<int>
    decreases cs.len() - i,
{
    if i < 0 || i >= cs.len() {
        None
    } else if cs[i].value.len() > 0 {
        Some(i)
    } else {
        first_named(cs, i + 1)
    }
}

/// The number of arguments taken for the constructors `cs`: that of the
/// first one with a name, else that of the last one, else zero.
pub open spec fn const_len(cs: Seq<TermV>) -> int {
    match first_named(cs, 0) {
        Some(k) => cs[k].children.len() as int,
        None => if cs.len() > 0 {
            cs[cs.len() - 1].children.len() as int
        } else {
            0
        },
    }
}

/// Every constructor of `cs` has an argument at position `i`.
pub open spec fn col_ok(cs: Seq<TermV>, i: int) -> bool {
    forall|j: int| 0 <= j < cs.len() ==> (#[trigger] cs[j]).children.len() > i
}

/// The arguments at position `i` of the constructors `cs`.
pub open spec fn column(cs: Seq<TermV>, i: int) -> Seq<TermV> {
    Seq::new(cs.len(), |j: int| cs[j].children[i])
}

/// Adding the equations `b` in turn (see [`append_F_spec`]).
pub open spec fn append_all(eqs: Seq<EqTermV>, b: Seq<EqTermV>) -> Seq<EqTermV>
    decreases b.len(),
{
    if b.len() == 0 {
        eqs
    } else {
        append_F_spec(append_all(eqs, b.drop_last()), b.last())
    }
}

pub proof fn lemma_column_lower(cs: Seq<TermV>, i: int)
    requires
        cs.len() > 0,
        0 <= i,
        col_ok(cs, i),
    ensures
        max_height(column(cs, i)) < max_height(cs),
{
    lemma_max_height_ge(cs, 0);
    assert forall|j: int| 0 <= j < column(cs, i).len() implies height(#[trigger] column(cs, i)[j]) <= (max_height(cs) - 1) as nat by {
        assert(cs[j].children.len() > i);
        lemma_max_height_ge(cs[j].children, i);
        lemma_max_height_ge(cs, j);
    }
    lemma_max_height_le(column(cs, i), (max_height(cs) - 1) as nat);
}

/// Splitting the terms `ts` against the equations `eqs`: constructors must
/// agree (else [`UnifyFailure::Mismatch`]); constructors alone give a
/// constructor whose arguments are split column by column, or, for a single
/// one, the constructor itself with its variables recorded; with variables,
/// the first variable, the columns of the constructors split for their
/// equations, and the equation of the variables with the constructors.
pub open spec fn sep_spec(ts: Seq<TermV>, eqs: Seq<EqTermV>) -> Result<(TermV, Seq<EqTermV>), UnifyFailure>
    decreases max_height(ts), 1int, 0int,
{
    if cons_clash(ts) {
        Err(UnifyFailure::Mismatch)
    } else {
        let cs = consts_of(ts);
        let vs = vars_of(ts);
        let n = const_len(cs);
        proof {
            lemma_max_height_filter(ts, cons_pred());
        }
        if vs.len() == 0 {
            if cs.len() == 0 {
                Err(UnifyFailure::Undefined)
            } else if cs.len() > 1 {
                match cols_build(cs, eqs, 0, n, Seq::empty()) {
                    Err(e) => Err(e),
                    Ok((kids, e1)) => Ok((TermV { value: cs[0].value, var: 0, children: kids }, e1)),
                }
            } else {
                Ok((TermV { value: cs[0].value, var: 0, children: cs[0].children }, extract_list(eqs, cs[0].children)))
            }
        } else {
            match cols_eqs(cs, eqs, 0, n) {
                Err(e) => Err(e),
                Ok(e1) => Ok((TermV { value: vs[0].value, var: 1, children: Seq::empty() }, append_F_spec(e1, EqTermV { instances: 0, equal: vs, terms: cs }))),
            }
        }
    }
}

/// Splitting the columns `i` to `n - 1` of the constructors `cs`, the
/// results gathered after `acc` and the equations of each added in turn.
pub open spec fn cols_build(cs: Seq<TermV>, eqs: Seq<EqTermV>, i: int, n: int, acc: Seq<TermV>) -> Result<(Seq<TermV>, Seq<EqTermV>), UnifyFailure>
    decreases max_height(cs), 0int, n - i,
{
    if i < 0 || i >= n {
        Ok((acc, eqs))
    } else if cs.len() == 0 || !col_ok(cs, i) {
        Err(UnifyFailure::Undefined)
    } else {
        proof {
            lemma_column_lower(cs, i);
        }
        match sep_spec(column(cs, i), eqs) {
            Err(e) => Err(e),
            Ok((a, b)) => cols_build(cs, append_all(eqs, b), i + 1, n, acc.push(a)),
        }
    }
}

/// Splitting, for their equations only, the columns `i` to `n - 1` of the
/// constructors `cs` when there are several.
pub open spec fn cols_eqs(cs: Seq<TermV>, eqs: Seq<EqTermV>, i: int, n: int) -> Result<Seq<EqTermV>, UnifyFailure>
    decreases max_height(cs), 0int, n - i,
{
    if i < 0 || i >= n {
        Ok(eqs)
    } else if !col_ok(cs, i) {
        Err(UnifyFailure::Undefined)
    } else if cs.len() > 1 {
        proof {
            lemma_column_lower(cs, i);
        }
        match sep_spec(column(cs, i), eqs) {
            Err(e) => Err(e),
            Ok((_, b)) => cols_eqs(cs, append_all(eqs, b), i + 1, n),
        }
    } else {
        cols_eqs(cs, eqs, i + 1, n)
    }
}

/// Adds the equations `b` in turn.
fn append_all_exec(F: Vec<EqTerm>, b: &Vec<EqTerm>) -> (res: Vec<EqTerm>)
    ensures
        eqs_view(res@) == append_all(eqs_view(F@), eqs_view(b@)),
{
    let ghost f0 = eqs_view(F@);
    let ghost bv = eqs_view(b@);
    let mut F = F;
    let mut k: usize = 0;
    while k < b.len()
        invariant
            k <= b.len(),
            bv == eqs_view(b@),
            eqs_view(F@) == append_all(f0, bv.take(k as int)),
        decreases b.len() - k,
    {
        assert(bv.take(k + 1).drop_last() =~= bv.take(k as int));
        assert(bv[k as int] == b@[k as int]@);
        let e = crate::unification::system::clone_eq(&b[k]);
        F = append_F(F, e);
        k += 1;
    }
    assert(bv.take(k as int) =~= bv);
    F
}

/// Sorts `list` into constructors and variables, and finds whether
/// constructors clash and how many arguments they take.
fn classify(list: &Vec<Term>) -> (res: (Vec<Term>, Vec<Term>, usize))
    ensures
        terms_view(res.0@) == consts_of(terms_view(list@)),
        terms_view(res.1@) == vars_of(terms_view(list@)),
        res.2 as int == const_len(consts_of(terms_view(list@))),
{
    let ghost tv = terms_view(list@);
    let mut consts: Vec<Term> = Vec::new();
    let mut vars: Vec<Term> = Vec::new();
    let mut i: usize = 0;
    while i < list.len()
        invariant
            i <= list.len(),
            tv == terms_view(list@),
            terms_view(consts@) == tv.take(i as int).filter(cons_pred()),
            terms_view(vars@) == tv.take(i as int).filter(var_pred()),
        decreases list.len() - i,
    {
        let t = &list[i];
        let ghost x = tv[i as int];
        assert(x == t@);
        assert(tv.take(i + 1) =~= tv.take(i as int).push(x));
        proof {
            tv.take(i as int).lemma_filter_push(x, cons_pred());
            tv.take(i as int).lemma_filter_push(x, var_pred());
        }
        let c = clone_term(t);
        if t.var == 0 {
            let ghost p = terms_view(consts@);
            consts.push(c);
            assert(terms_view(consts@) =~= p.push(x));
        } else {
            let ghost p = terms_view(vars@);
            vars.push(c);
            assert(terms_view(vars@) =~= p.push(x));
        }
        i += 1;
    }
    assert(tv.take(i as int) =~= tv);
    let ghost cv = terms_view(consts@);
    let mut named = false;
    let ghost mut gk: int = 0;
    let mut len: usize = 0;
    let mut j: usize = 0;
    while j < consts.len()
        invariant
            j <= consts.len(),
            cv == terms_view(consts@),
            named ==> 0 <= gk < cv.len() && first_named(cv, 0) == Some(gk) && len as int == cv[gk].children.len(),
            !named ==> first_named(cv, 0) == first_named(cv, j as int),
            !named && j > 0 ==> len as int == cv[j - 1].children.len(),
            !named && j == 0 ==> len == 0,
        decreases consts.len() - j,
    {
        assert(cv[j as int] == consts@[j as int]@);
        proof {
            lemma_children_view(consts@[j as int]);
        }
        if !named {
            len = consts[j].children.len();
            if char_len(&consts[j].value) > 0 {
                named = true;
                proof {
                    gk = j as int;
                }
            }
        }
        j += 1;
    }
    proof {
        if !named {
            assert(first_named(cv, j as int) == None::<int>);
        }
    }
    (consts, vars, len)
}

/// Whether two constructors of `list` clash (see [`cons_clash`]).
fn clash(list: &Vec<Term>) -> (res: bool)
    ensures
        res == cons_clash(terms_view(list@)),
{
    let ghost tv = terms_view(list@);
    let mut l: usize = 0;
    while l < list.len()
        invariant
            l <= list.len(),
            tv == terms_view(list@),
            forall|k: int, l1: int| l1 < l ==> !#[trigger] clash_pair(tv, k, l1),
        decreases list.len() - l,
    {
        let mut k: usize = 0;
        while k < l
            invariant
                k <= l < list.len(),
                tv == terms_view(list@),
                forall|k1: int, l1: int| l1 < l ==> !#[trigger] clash_pair(tv, k1, l1),
                forall|k1: int| k1 < k ==> !#[trigger] clash_pair(tv, k1, l as int),
            decreases l - k,
        {
            let a = &list[k];
            let b = &list[l];
            assert(tv[k as int] == a@);
            assert(tv[l as int] == b@);
            proof {
                lemma_children_view(*a);
                lemma_children_view(*b);
            }
            if a.var == 0 && b.var == 0 && char_len(&a.value) > 0 && (b.value != a.value || b.children.len() != a.children.len()) {
                assert(clash_pair(tv, k as int, l as int));
                return true;
            }
            assert(!clash_pair(tv, k as int, l as int));
            k += 1;
        }
        l += 1;
    }
    false
}

/// The arguments at position `i` of the constructors, or `None` when one
/// has no argument there.
fn column_exec(cs: &Vec<Term>, i: usize) -> (res: Option<Vec<Term>>)
    ensures
        match res {
            Some(c) => col_ok(terms_view(cs@), i as int) && terms_view(c@) == column(terms_view(cs@), i as int),
            None => !col_ok(terms_view(cs@), i as int),
        },
{
    let ghost cv = terms_view(cs@);
    let mut out: Vec<Term> = Vec::new();
    let mut j: usize = 0;
    while j < cs.len()
        invariant
            j <= cs.len(),
            cv == terms_view(cs@),
            forall|k: int| 0 <= k < j ==> (#[trigger] cv[k]).children.len() > i,
            terms_view(out@) == column(cv, i as int).take(j as int),
        decreases cs.len() - j,
    {
        let c = &cs[j];
        assert(cv[j as int] == c@);
        proof {
            lemma_children_view(*c);
        }
        if i >= c.children.len() {
            return None;
        }
        let x = clone_term(&c.children[i]);
        assert(x@ == cv[j as int].children[i as int]);
        let ghost p = terms_view(out@);
        out.push(x);
        assert(terms_view(out@) =~= p.push(x@));
        assert(column(cv, i as int).take(j + 1) =~= column(cv, i as int).take(j as int).push(column(cv, i as int)[j as int]));
        j += 1;
    }
    assert(column(cv, i as int).take(j as int) =~= column(cv, i as int));
    Some(out)
}

/// The value of a result of [`separateCF`].
pub open spec fn sep_view(r: Result<(Term, Vec<EqTerm>), UnifyFailure>) -> Result<(TermV, Seq<EqTermV>), UnifyFailure> {
    match r {
        Ok((t, f)) => Ok((t@, eqs_view(f@))),
        Err(e) => Err(e),
    }
}

/// Splits terms that must be made equal (see [`sep_spec`]).
#[verifier::loop_isolation(false)]
pub fn separateCF(list: Vec<Term>, F: Vec<EqTerm>) -> (res: Result<(Term, Vec<EqTerm>), UnifyFailure>)
    ensures
        sep_view(res) == sep_spec(terms_view(list@), eqs_view(F@)),
    decreases max_height(terms_view(list@)), 1int, 0int,
{
    let ghost tv = terms_view(list@);
    let ghost f0 = eqs_view(F@);
    if clash(&list) {
        return Err(UnifyFailure::Mismatch);
    }
    let (consts, vars, n) = classify(&list);
    let ghost cv = terms_view(consts@);
    proof {
        lemma_max_height_filter(tv, cons_pred());
    }
    if vars.len() == 0 {
        if consts.len() == 0 {
            return Err(UnifyFailure::Undefined);
        }
        assert(cv[0] == consts@[0]@);
        proof {
            lemma_children_view(consts@[0]);
        }
        let name = consts[0].value.clone();
        if consts.len() > 1 {
            let mut kids: Vec<Term> = Vec::new();
            assert(terms_view(kids@) =~= Seq::<TermV>::empty());
            let mut F = F;
            let mut i: usize = 0;
            while i < n
                invariant
                    i <= n,
                    cv == terms_view(consts@),
                    cv.len() > 1,
                    max_height(cv) <= max_height(tv),
                    cols_build(cv, f0, 0, n as int, Seq::empty()) == cols_build(cv, eqs_view(F@), i as int, n as int, terms_view(kids@)),
                decreases n - i,
            {
                let col = match column_exec(&consts, i) {
                    None => {
                        return Err(UnifyFailure::Undefined);
                    },
                    Some(c) => c,
                };
                proof {
                    lemma_column_lower(cv, i as int);
                }
                match separateCF(col, clone_eqs(&F)) {
                    Err(e) => {
                        return Err(e);
                    },
                    Ok((a, b)) => {
                        let ghost pk = terms_view(kids@);
                        let ghost av = a@;
                        kids.push(a);
                        assert(terms_view(kids@) =~= pk.push(av));
                        F = append_all_exec(F, &b);
                    },
                }
                i += 1;
            }
            let c = Term { value: name, var: 0, children: kids };
            proof {
                lemma_children_view(c);
            }
            return Ok((c, F));
        }
        let kids = clone_terms(&consts[0].children);
        let F = extract_vars(F, clone_terms(&consts[0].children));
        let c = Term { value: name, var: 0, children: kids };
        proof {
            lemma_children_view(c);
        }
        return Ok((c, F));
    }
    let ghost vv = terms_view(vars@);
    let mut F = F;
    let mut i: usize = 0;
    while i < n
        invariant
            i <= n,
            cv == terms_view(consts@),
            max_height(cv) <= max_height(tv),
            cols_eqs(cv, f0, 0, n as int) == cols_eqs(cv, eqs_view(F@), i as int, n as int),
        decreases n - i,
    {
        let col = match column_exec(&consts, i) {
            None => {
                return Err(UnifyFailure::Undefined);
            },
            Some(c) => c,
        };
        if consts.len() > 1 {
            proof {
                lemma_column_lower(cv, i as int);
            }
            match separateCF(col, clone_eqs(&F)) {
                Err(e) => {
                    return Err(e);
                },
                Ok((_, b)) => {
                    F = append_all_exec(F, &b);
                },
            }
        }
        i += 1;
    }
    assert(vv[0] == vars@[0]@);
    let c = Term { value: vars[0].value.clone(), var: 1, children: Vec::new() };
    proof {
        lemma_children_view(c);
        assert(c@.children =~= Seq::<TermV>::empty());
    }
    let e = EqTerm { instances: 0, equal: vars, terms: consts };
    let F = append_F(F, e);
    Ok((c, F))
}

} // verus!
