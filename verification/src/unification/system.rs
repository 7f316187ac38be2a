//! Systems of equations between terms, and the operations that merge,
//! clean and solve them.
use vstd::prelude::*;
use crate::unification::term::{Term, TermV, term_view, terms_view, clone_term, clone_terms, full_text, text_of, lemma_children_view};

verus! {

/// An equation: the variables `equal` are all equal to each of `terms`;
/// `instances` counts the occurrences of those variables in other
/// equations.
pub struct EqTerm {
    pub instances: i32,
    pub equal: Vec<Term>,
    pub terms: Vec<Term>,
}

/// The mathematical value of an [`EqTerm`].
pub struct EqTermV {
    pub instances: int,
    pub equal: Seq<TermV>,
    pub terms: Seq<TermV>,
}

impl View for EqTerm {
    type V = EqTermV;

    open spec fn view(&self) -> EqTermV {
        EqTermV { instances: self.instances as int, equal: terms_view(self.equal@), terms: terms_view(self.terms@) }
    }
}

pub open spec fn eqs_view(s: Seq<EqTerm>) -> Seq<EqTermV> {
    s.map_values(|e: EqTerm| e@)
}

/// A copy of an equation.
pub fn clone_eq(e: &EqTerm) -> (res: EqTerm)
    ensures
        res@ == e@,
{
    EqTerm { instances: e.instances, equal: clone_terms(&e.equal), terms: clone_terms(&e.terms) }
}

/// A copy of a list of equations.
pub fn clone_eqs(es: &Vec<EqTerm>) -> (res: Vec<EqTerm>)
    ensures
        eqs_view(res@) == eqs_view(es@),
{
    let mut res: Vec<EqTerm> = Vec::new();
    let mut i: usize = 0;
    while i < es.len()
        invariant
            i <= es.len(),
            eqs_view(res@) == eqs_view(es@).take(i as int),
        decreases es.len() - i,
    {
        let ghost prev = eqs_view(res@);
        let e = clone_eq(&es[i]);
        res.push(e);
        assert(eqs_view(res@) =~= prev.push(e@));
        assert(eqs_view(es@).take(i + 1) =~= eqs_view(es@).take(i as int).push(es@[i as int]@));
        i += 1;
    }
    assert(eqs_view(es@).take(i as int) =~= eqs_view(es@));
    res
}

/// `e` with the variables `equal`.
pub open spec fn with_equal(e: EqTermV, equal: Seq<TermV>) -> EqTermV {
    EqTermV { instances: e.instances, equal, terms: e.terms }
}

/// Some term of `vs` is named `v`.
pub open spec fn names(vs: Seq<TermV>, v: Seq<char>) -> bool {
    exists|i: int| 0 <= i < vs.len() && #[trigger] vs[i].value == v
}

/// Some term of `vs` is written `s`.
pub open spec fn has_text(vs: Seq<TermV>, s: Seq<char>) -> bool {
    exists|i: int| 0 <= i < vs.len() && full_text(#[trigger] vs[i]) == s
}

/// Adding the variables `neqs` in turn to `eqs`, each unless a variable of
/// the same name is there already.
pub open spec fn add_vars_spec(eqs: Seq<TermV>, neqs: Seq<TermV>) -> Seq<TermV>
    decreases neqs.len(),
{
    if neqs.len() == 0 {
        eqs
    } else {
        let cur = add_vars_spec(eqs, neqs.drop_last());
        if names(cur, neqs.last().value) {
            cur
        } else {
            cur.push(neqs.last())
        }
    }
}

/// Adding the terms `neqs` in turn to `eqs`, each unless a term written the
/// same is there already.
pub open spec fn add_terms_spec(eqs: Seq<TermV>, neqs: Seq<TermV>) -> Seq<TermV>
    decreases neqs.len(),
{
    if neqs.len() == 0 {
        eqs
    } else {
        let cur = add_terms_spec(eqs, neqs.drop_last());
        if has_text(cur, full_text(neqs.last())) {
            cur
        } else {
            cur.push(neqs.last())
        }
    }
}

/// Whether some term of `vs` is named `v`.
fn names_exec(vs: &Vec<Term>, v: &String) -> (res: bool)
    ensures
        res == names(terms_view(vs@), v@),
{
    let ghost tv = terms_view(vs@);
    let mut i: usize = 0;
    while i < vs.len()
        invariant
            i <= vs.len(),
            tv == terms_view(vs@),
            forall|k: int| 0 <= k < i ==> (#[trigger] tv[k]).value != v@,
        decreases vs.len() - i,
    {
        assert(tv[i as int] == vs@[i as int]@);
        if vs[i].value == *v {
            assert(tv[i as int].value == v@);
            return true;
        }
        i += 1;
    }
    false
}

/// Adds the variables `neqs` not named in `eqs` (see [`add_vars_spec`]).
pub fn add_vars(eqs: Vec<Term>, neqs: Vec<Term>) -> (res: Vec<Term>)
    ensures
        terms_view(res@) == add_vars_spec(terms_view(eqs@), terms_view(neqs@)),
{
    let ghost e0 = terms_view(eqs@);
    let ghost nv = terms_view(neqs@);
    let mut eqs = eqs;
    let mut k: usize = 0;
    while k < neqs.len()
        invariant
            k <= neqs.len(),
            nv == terms_view(neqs@),
            terms_view(eqs@) == add_vars_spec(e0, nv.take(k as int)),
        decreases neqs.len() - k,
    {
        assert(nv.take(k + 1).drop_last() =~= nv.take(k as int));
        assert(nv.take(k + 1).last() == nv[k as int]);
        assert(nv[k as int] == neqs@[k as int]@);
        if !names_exec(&eqs, &neqs[k].value) {
            let ghost prev = terms_view(eqs@);
            let c = clone_term(&neqs[k]);
            eqs.push(c);
            assert(terms_view(eqs@) =~= prev.push(c@));
        }
        k += 1;
    }
    assert(nv.take(k as int) =~= nv);
    eqs
}

/// Whether some term of `vs` is written `s`.
fn has_text_exec(vs: &Vec<Term>, s: &String) -> (res: bool)
    ensures
        res == has_text(terms_view(vs@), s@),
{
    let ghost tv = terms_view(vs@);
    let mut i: usize = 0;
    while i < vs.len()
        invariant
            i <= vs.len(),
            tv == terms_view(vs@),
            forall|k: int| 0 <= k < i ==> full_text(#[trigger] tv[k]) != s@,
        decreases vs.len() - i,
    {
        assert(tv[i as int] == vs@[i as int]@);
        let t = text_of(&vs[i]);
        if t == *s {
            assert(full_text(tv[i as int]) == s@);
            return true;
        }
        i += 1;
    }
    false
}

/// Adds the terms `neqs` not written alike in `eqs` (see [`add_terms_spec`]).
pub fn add_terms(eqs: Vec<Term>, neqs: Vec<Term>) -> (res: Vec<Term>)
    ensures
        terms_view(res@) == add_terms_spec(terms_view(eqs@), terms_view(neqs@)),
{
    let ghost e0 = terms_view(eqs@);
    let ghost nv = terms_view(neqs@);
    let mut eqs = eqs;
    let mut k: usize = 0;
    while k < neqs.len()
        invariant
            k <= neqs.len(),
            nv == terms_view(neqs@),
            terms_view(eqs@) == add_terms_spec(e0, nv.take(k as int)),
        decreases neqs.len() - k,
    {
        assert(nv.take(k + 1).drop_last() =~= nv.take(k as int));
        assert(nv.take(k + 1).last() == nv[k as int]);
        assert(nv[k as int] == neqs@[k as int]@);
        let s = text_of(&neqs[k]);
        if !has_text_exec(&eqs, &s) {
            let ghost prev = terms_view(eqs@);
            let c = clone_term(&neqs[k]);
            eqs.push(c);
            assert(terms_view(eqs@) =~= prev.push(c@));
        }
        k += 1;
    }
    assert(nv.take(k as int) =~= nv);
    eqs
}

/// A term of `a` and a term of `b` have the same name.
pub open spec fn shares_name(a: Seq<TermV>, b: Seq<TermV>) -> bool {
    exists|i: int, j: int| 0 <= i < a.len() && 0 <= j < b.len() && #[trigger] a[i].value == #[trigger] b[j].value
}

/// Whether a term of `a` and a term of `b` have the same name.
fn shares_name_exec(a: &Vec<Term>, b: &Vec<Term>) -> (res: bool)
    ensures
        res == shares_name(terms_view(a@), terms_view(b@)),
{
    let ghost av = terms_view(a@);
    let ghost bv = terms_view(b@);
    let mut i: usize = 0;
    while i < a.len()
        invariant
            i <= a.len(),
            av == terms_view(a@),
            bv == terms_view(b@),
            forall|k: int, l: int| 0 <= k < i && 0 <= l < bv.len() ==> #[trigger] av[k].value != #[trigger] bv[l].value,
        decreases a.len() - i,
    {
        assert(av[i as int] == a@[i as int]@);
        if names_exec(b, &a[i].value) {
            proof {
                let l = choose|l: int| 0 <= l < bv.len() && #[trigger] bv[l].value == av[i as int].value;
                assert(av[i as int].value == bv[l].value);
            }
            return true;
        }
        i += 1;
    }
    false
}

/// The first equation of `eqs`, from index `i` on, that names one of `vs`.
pub open spec fn first_sharing(eqs: Seq<EqTermV>, vs: Seq<TermV>, i: int) -> Option<int>
    decreases eqs.len() - i,
{
    if i < 0 || i >= eqs.len() {
        None
    } else if shares_name(eqs[i].equal, vs) {
        Some(i)
    } else {
        first_sharing(eqs, vs, i + 1)
    }
}

/// Adding the equation `v` to `eqs`: it is merged into the first equation
/// that names one of its variables (variables and terms added, see
/// [`add_vars_spec`] and [`add_terms_spec`]), else appended.
pub open spec fn append_F_spec(eqs: Seq<EqTermV>, v: EqTermV) -> Seq<EqTermV> {
    match first_sharing(eqs, v.equal, 0) {
        Some(i) => eqs.update(i, EqTermV { instances: eqs[i].instances, equal: add_vars_spec(eqs[i].equal, v.equal), terms: add_terms_spec(eqs[i].terms, v.terms) }),
        None => eqs.push(v),
    }
}

proof fn lemma_first_sharing(eqs: Seq<EqTermV>, vs: Seq<TermV>, j: int, i: int)
    requires
        0 <= j <= i <= eqs.len(),
        forall|k: int| j <= k < i ==> !shares_name((#[trigger] eqs[k]).equal, vs),
    ensures
        first_sharing(eqs, vs, j) == first_sharing(eqs, vs, i),
    decreases i - j,
{
    if j < i {
        lemma_first_sharing(eqs, vs, j + 1, i);
    }
}

/// Adds an equation (see [`append_F_spec`]).
#[verifier::loop_isolation(false)]
pub fn append_F(F: Vec<EqTerm>, v_t: EqTerm) -> (res: Vec<EqTerm>)
    ensures
        eqs_view(res@) == append_F_spec(eqs_view(F@), v_t@),
{
    let ghost f0 = eqs_view(F@);
    let mut F = F;
    let mut i: usize = 0;
    while i < F.len()
        invariant
            i <= F.len(),
            f0 == eqs_view(F@),
            forall|k: int| 0 <= k < i ==> !shares_name((#[trigger] f0[k]).equal, v_t@.equal),
        decreases F.len() - i,
    {
        assert(f0[i as int] == F@[i as int]@);
        if shares_name_exec(&F[i].equal, &v_t.equal) {
            proof {
                lemma_first_sharing(f0, v_t@.equal, 0, i as int);
            }
            let equal = add_vars(clone_terms(&F[i].equal), clone_terms(&v_t.equal));
            let terms = add_terms(clone_terms(&F[i].terms), clone_terms(&v_t.terms));
            let e = EqTerm { instances: F[i].instances, equal, terms };
            F.set(i, e);
            assert(eqs_view(F@) =~= append_F_spec(f0, v_t@));
            return F;
        }
        i += 1;
    }
    proof {
        lemma_first_sharing(f0, v_t@.equal, 0, i as int);
    }
    let ghost prev = eqs_view(F@);
    let ghost vv = v_t@;
    F.push(v_t);
    assert(eqs_view(F@) =~= prev.push(vv));
    F
}

/// The equation of a variable met alone.
pub open spec fn var_eq(t: TermV) -> EqTermV {
    EqTermV { instances: 0, equal: seq![t], terms: Seq::empty() }
}

/// Adding, in turn, an equation for each variable of the terms `ts` (see
/// [`append_F_spec`]), constructors being searched through.
pub open spec fn extract_list(eqs: Seq<EqTermV>, ts: Seq<TermV>) -> Seq<EqTermV>
    decreases ts,
{
    if ts.len() == 0 {
        eqs
    } else {
        extract_term(extract_list(eqs, ts.subrange(0, ts.len() - 1)), ts[ts.len() - 1])
    }
}

pub open spec fn extract_term(eqs: Seq<EqTermV>, t: TermV) -> Seq<EqTermV>
    decreases t,
{
    if t.var == 1 {
        append_F_spec(eqs, var_eq(t))
    } else {
        extract_list(eqs, t.children)
    }
}

/// Adds an equation for each variable of `list` (see [`extract_list`]).
pub fn extract_vars(F: Vec<EqTerm>, list: Vec<Term>) -> (res: Vec<EqTerm>)
    ensures
        eqs_view(res@) == extract_list(eqs_view(F@), terms_view(list@)),
{
    extract_ref(F, &list)
}

fn extract_ref(F: Vec<EqTerm>, list: &Vec<Term>) -> (res: Vec<EqTerm>)
    ensures
        eqs_view(res@) == extract_list(eqs_view(F@), terms_view(list@)),
    decreases list@,
{
    let ghost f0 = eqs_view(F@);
    let ghost lv = terms_view(list@);
    let mut F = F;
    let mut k: usize = 0;
    while k < list.len()
        invariant
            k <= list.len(),
            lv == terms_view(list@),
            eqs_view(F@) == extract_list(f0, lv.take(k as int)),
        decreases list.len() - k,
    {
        let ghost pre = lv.take(k + 1);
        assert(pre.subrange(0, pre.len() - 1) =~= lv.take(k as int));
        assert(pre[pre.len() - 1] == lv[k as int]);
        assert(lv[k as int] == list@[k as int]@);
        assert(extract_list(f0, pre) == extract_term(extract_list(f0, lv.take(k as int)), lv[k as int]));
        let t = &list[k];
        if t.var == 1 {
            let e = EqTerm { instances: 0, equal: vec![clone_term(t)], terms: Vec::new() };
            assert(e@.equal =~= seq![t@]);
            assert(e@.terms =~= Seq::<TermV>::empty());
            assert(e@ == var_eq(lv[k as int]));
            F = append_F(F, e);
        } else {
            proof {
                lemma_children_view(*t);
                assert(decreases_to!(list@ => list@[k as int]));
                assert(lv[k as int].children == terms_view(t.children@));
            }
            F = extract_ref(F, &t.children);
        }
        k += 1;
    }
    assert(lv.take(k as int) =~= lv);
    F
}

/// The names of `a` are those of `b`, in order.
pub open spec fn same_names(a: Seq<TermV>, b: Seq<TermV>) -> bool {
    a.len() == b.len() && forall|i: int| 0 <= i < a.len() ==> #[trigger] a[i].value == b[i].value
}

/// Whether two lists of variables have the same names in order.
pub fn complete_match(eq1: Vec<Term>, eq2: Vec<Term>) -> (res: bool)
    ensures
        res == same_names(terms_view(eq1@), terms_view(eq2@)),
{
    let ghost a = terms_view(eq1@);
    let ghost b = terms_view(eq2@);
    if eq1.len() != eq2.len() {
        return false;
    }
    let mut i: usize = 0;
    while i < eq1.len()
        invariant
            i <= eq1.len(),
            eq1.len() == eq2.len(),
            a == terms_view(eq1@),
            b == terms_view(eq2@),
            forall|k: int| 0 <= k < i ==> #[trigger] a[k].value == b[k].value,
        decreases eq1.len() - i,
    {
        assert(a[i as int] == eq1@[i as int]@);
        assert(b[i as int] == eq2@[i as int]@);
        if eq1[i].value != eq2[i].value {
            assert(a[i as int].value != b[i as int].value);
            return false;
        }
        i += 1;
    }
    true
}

/// No equation of `eqs` shares a name with `vars` unless its variables are
/// exactly those of `vars`.
pub open spec fn unique_spec(eqs: Seq<EqTermV>, vars: Seq<TermV>) -> bool {
    forall|i: int| 0 <= i < eqs.len() ==> same_names((#[trigger] eqs[i]).equal, vars) || !shares_name(vars, eqs[i].equal)
}

/// Whether the variables `eqs` are named by no other equation of `F`.
pub fn unique(F: Vec<EqTerm>, eqs: Vec<Term>) -> (res: bool)
    ensures
        res == unique_spec(eqs_view(F@), terms_view(eqs@)),
{
    let ghost fv = eqs_view(F@);
    let ghost vv = terms_view(eqs@);
    let mut i: usize = 0;
    while i < F.len()
        invariant
            i <= F.len(),
            fv == eqs_view(F@),
            vv == terms_view(eqs@),
            forall|k: int| 0 <= k < i ==> same_names((#[trigger] fv[k]).equal, vv) || !shares_name(vv, fv[k].equal),
        decreases F.len() - i,
    {
        assert(fv[i as int] == F@[i as int]@);
        if !complete_match(clone_terms(&F[i].equal), clone_terms(&eqs)) {
            if shares_name_exec(&eqs, &F[i].equal) {
                return false;
            }
        }
        i += 1;
    }
    true
}

/// Whether some term of `comp` is named `have`.
pub fn already_present(have: String, comp: Vec<Term>) -> (res: bool)
    ensures
        res == names(terms_view(comp@), have@),
{
    names_exec(&comp, &have)
}

/// Each equation with its repeated variable names dropped.
pub open spec fn merge_equals_spec(a: Seq<EqTermV>) -> Seq<EqTermV> {
    a.map_values(|e: EqTermV| with_equal(e, add_vars_spec(Seq::empty(), e.equal)))
}

/// Drops repeated variable names in each equation.
pub fn merge_equals(A: Vec<EqTerm>) -> (res: Vec<EqTerm>)
    ensures
        eqs_view(res@) == merge_equals_spec(eqs_view(A@)),
{
    let ghost av = eqs_view(A@);
    let mut out: Vec<EqTerm> = Vec::new();
    let mut i: usize = 0;
    while i < A.len()
        invariant
            i <= A.len(),
            av == eqs_view(A@),
            eqs_view(out@) == merge_equals_spec(av).take(i as int),
        decreases A.len() - i,
    {
        assert(av[i as int] == A@[i as int]@);
        let empty: Vec<Term> = Vec::new();
        assert(terms_view(empty@) =~= Seq::<TermV>::empty());
        let equal = add_vars(empty, clone_terms(&A[i].equal));
        let e = EqTerm { instances: A[i].instances, equal, terms: clone_terms(&A[i].terms) };
        let ghost prev = eqs_view(out@);
        out.push(e);
        assert(eqs_view(out@) =~= prev.push(e@));
        assert(merge_equals_spec(av).take(i + 1) =~= merge_equals_spec(av).take(i as int).push(merge_equals_spec(av)[i as int]));
        i += 1;
    }
    assert(merge_equals_spec(av).take(i as int) =~= merge_equals_spec(av));
    out
}

/// The name that marks a removed equation.
pub open spec fn skull_text() -> Seq<char> {
    seq!['\u{1F480}']
}

pub open spec fn alive_pred() -> spec_fn(EqTermV) -> bool {
    |e: EqTermV| e.equal[0].value != skull_text()
}

/// The equations whose first variable is not the removal mark.
pub open spec fn clean_spec(eqs: Seq<EqTermV>) -> Seq<EqTermV> {
    eqs.filter(alive_pred())
}

/// Every equation has a variable.
pub open spec fn all_named(eqs: Seq<EqTermV>) -> bool {
    forall|k: int| 0 <= k < eqs.len() ==> (#[trigger] eqs[k]).equal.len() > 0
}

/// Drops the equations marked as removed.
pub fn clean_F(F: Vec<EqTerm>) -> (res: Vec<EqTerm>)
    requires
        all_named(eqs_view(F@)),
    ensures
        eqs_view(res@) == clean_spec(eqs_view(F@)),
{
    let ghost f0 = eqs_view(F@);
    let sk = crate::text::char_string('\u{1F480}');
    let mut out: Vec<EqTerm> = Vec::new();
    let mut i: usize = 0;
    while i < F.len()
        invariant
            i <= F.len(),
            f0 == eqs_view(F@),
            sk@ == skull_text(),
            all_named(f0),
            eqs_view(out@) == f0.take(i as int).filter(alive_pred()),
        decreases F.len() - i,
    {
        let e = &F[i];
        assert(f0[i as int] == e@);
        assert(f0.take(i + 1) =~= f0.take(i as int).push(f0[i as int]));
        proof {
            f0.take(i as int).lemma_filter_push(f0[i as int], alive_pred());
        }
        assert(e@.equal.len() > 0);
        assert(f0[i as int].equal[0] == e.equal@[0]@);
        if e.equal[0].value != sk {
            let ghost prev = eqs_view(out@);
            let c = clone_eq(e);
            out.push(c);
            assert(eqs_view(out@) =~= prev.push(c@));
        }
        i += 1;
    }
    assert(f0.take(i as int) =~= f0);
    out
}

/// Whether two lists of terms are equal.
pub fn terms_eq(a: &Vec<Term>, b: &Vec<Term>) -> (res: bool)
    ensures
        res == (terms_view(a@) == terms_view(b@)),
{
    let ghost av = terms_view(a@);
    let ghost bv = terms_view(b@);
    if a.len() != b.len() {
        assert(av.len() != bv.len());
        return false;
    }
    let mut i: usize = 0;
    while i < a.len()
        invariant
            i <= a.len(),
            a.len() == b.len(),
            av == terms_view(a@),
            bv == terms_view(b@),
            forall|k: int| 0 <= k < i ==> av[k] == bv[k],
        decreases a.len() - i,
    {
        if !term_eq(&a[i], &b[i]) {
            assert(av[i as int] != bv[i as int]);
            return false;
        }
        i += 1;
    }
    assert(av =~= bv);
    true
}

/// Whether two terms are equal.
pub fn term_eq(a: &Term, b: &Term) -> (res: bool)
    ensures
        res == (a@ == b@),
    decreases a,
{
    proof {
        lemma_children_view(*a);
        lemma_children_view(*b);
    }
    if a.value != b.value || a.var != b.var || a.children.len() != b.children.len() {
        assert(a@.children.len() == a.children@.len());
        return false;
    }
    let ghost av = terms_view(a.children@);
    let ghost bv = terms_view(b.children@);
    let mut i: usize = 0;
    while i < a.children.len()
        invariant
            i <= a.children.len(),
            a.children.len() == b.children.len(),
            av == terms_view(a.children@),
            bv == terms_view(b.children@),
            forall|k: int| 0 <= k < i ==> av[k] == bv[k],
        decreases a.children.len() - i,
    {
        if !term_eq(&a.children[i], &b.children[i]) {
            assert(av[i as int] != bv[i as int]);
            assert(a@.children[i as int] != b@.children[i as int]);
            return false;
        }
        i += 1;
    }
    assert(av =~= bv);
    assert(a@ == b@);
    true
}

pub open spec fn kept_pred(vars: Seq<TermV>) -> spec_fn(EqTermV) -> bool {
    |e: EqTermV| e.equal != vars && e.equal[0].value != skull_text()
}

/// The equations of `eqs` other than those on exactly the variables
/// `vars`, and other than those marked as removed.
pub open spec fn remove_spec(eqs: Seq<EqTermV>, vars: Seq<TermV>) -> Seq<EqTermV> {
    eqs.filter(kept_pred(vars))
}

/// Every equation of `eqs` is on `vars` or has a variable.
pub open spec fn removable(eqs: Seq<EqTermV>, vars: Seq<TermV>) -> bool {
    forall|k: int| 0 <= k < eqs.len() ==> (#[trigger] eqs[k]).equal == vars || eqs[k].equal.len() > 0
}

/// Removes the equations on exactly the variables of `term`.
pub fn remove_from_EqTerm(F: Vec<EqTerm>, term: EqTerm) -> (res: Vec<EqTerm>)
    requires
        removable(eqs_view(F@), term@.equal),
    ensures
        eqs_view(res@) == remove_spec(eqs_view(F@), term@.equal),
{
    let ghost f0 = eqs_view(F@);
    let ghost tv = term@.equal;
    let sk = crate::text::char_string('\u{1F480}');
    let mut out: Vec<EqTerm> = Vec::new();
    let mut i: usize = 0;
    while i < F.len()
        invariant
            i <= F.len(),
            f0 == eqs_view(F@),
            tv == term@.equal,
            sk@ == skull_text(),
            removable(f0, tv),
            eqs_view(out@) == remove_spec(f0.take(i as int), tv),
        decreases F.len() - i,
    {
        let e = &F[i];
        assert(f0[i as int] == e@);
        assert(f0.take(i + 1) =~= f0.take(i as int).push(f0[i as int]));
        proof {
            f0.take(i as int).lemma_filter_push(f0[i as int], kept_pred(tv));
        }
        if !terms_eq(&e.equal, &term.equal) {
            assert(e.equal@.len() > 0);
            assert(f0[i as int].equal[0] == e.equal@[0]@);
            if e.equal[0].value != sk {
                let ghost prev = eqs_view(out@);
                let c = clone_eq(e);
                out.push(c);
                assert(eqs_view(out@) =~= prev.push(c@));
            }
        }
        i += 1;
    }
    assert(f0.take(i as int) =~= f0);
    out
}

/// `e` with its count reset.
pub open spec fn zeroed(e: EqTermV) -> EqTermV {
    EqTermV { instances: 0, equal: e.equal, terms: e.terms }
}

/// Equation `i` with its count reset, and dropped (its variables emptied)
/// when it has no terms and shares a variable with another equation.
pub open spec fn clear_step(eqs: Seq<EqTermV>, i: int) -> Seq<EqTermV> {
    let f1 = eqs.update(i, zeroed(eqs[i]));
    if f1[i].terms.len() == 0 && !unique_spec(f1, f1[i].equal) {
        f1.update(i, with_equal(f1[i], Seq::empty()))
    } else {
        f1
    }
}

/// [`clear_step`] on equations `k - 1` down to `0`.
pub open spec fn clear_from(eqs: Seq<EqTermV>, k: int) -> Seq<EqTermV>
    decreases k,
{
    if k <= 0 {
        eqs
    } else {
        clear_from(clear_step(eqs, k - 1), k - 1)
    }
}

pub open spec fn named_pred() -> spec_fn(EqTermV) -> bool {
    |e: EqTermV| e.equal.len() != 0
}

/// Drops, from the last to the first, the equations without terms whose
/// variables another equation shares, and resets all counts.
pub open spec fn clear_empty_spec(eqs: Seq<EqTermV>) -> Seq<EqTermV> {
    clear_from(eqs, eqs.len() as int).filter(named_pred())
}

/// The equations that have variables.
fn keep_named(F: Vec<EqTerm>) -> (res: Vec<EqTerm>)
    ensures
        eqs_view(res@) == eqs_view(F@).filter(named_pred()),
{
    let ghost f0 = eqs_view(F@);
    let mut out: Vec<EqTerm> = Vec::new();
    let mut i: usize = 0;
    while i < F.len()
        invariant
            i <= F.len(),
            f0 == eqs_view(F@),
            eqs_view(out@) == f0.take(i as int).filter(named_pred()),
        decreases F.len() - i,
    {
        assert(f0[i as int] == F@[i as int]@);
        assert(f0.take(i + 1) =~= f0.take(i as int).push(f0[i as int]));
        proof {
            f0.take(i as int).lemma_filter_push(f0[i as int], named_pred());
        }
        if F[i].equal.len() != 0 {
            let ghost prev = eqs_view(out@);
            let c = clone_eq(&F[i]);
            out.push(c);
            assert(eqs_view(out@) =~= prev.push(c@));
        }
        i += 1;
    }
    assert(f0.take(i as int) =~= f0);
    out
}

/// Drops the equations without terms that clash with others (see
/// [`clear_empty_spec`]).
pub fn clear_empty(F: Vec<EqTerm>) -> (res: Vec<EqTerm>)
    ensures
        eqs_view(res@) == clear_empty_spec(eqs_view(F@)),
{
    let ghost f0 = eqs_view(F@);
    let mut F = F;
    let mut i: usize = F.len();
    while i > 0
        invariant
            i <= F.len(),
            F.len() == f0.len(),
            clear_from(eqs_view(F@), i as int) == clear_from(f0, f0.len() as int),
        decreases i,
    {
        i -= 1;
        let ghost fb = eqs_view(F@);
        assert(fb[i as int] == F@[i as int]@);
        let z = EqTerm { instances: 0, equal: clone_terms(&F[i].equal), terms: clone_terms(&F[i].terms) };
        F.set(i, z);
        assert(eqs_view(F@) =~= fb.update(i as int, zeroed(fb[i as int])));
        let ghost f1 = eqs_view(F@);
        assert(f1[i as int] == F@[i as int]@);
        if F[i].terms.len() == 0 && !unique(clone_eqs(&F), clone_terms(&F[i].equal)) {
            let e = EqTerm { instances: 0, equal: Vec::new(), terms: clone_terms(&F[i].terms) };
            assert(e@.equal =~= Seq::<TermV>::empty());
            F.set(i, e);
            assert(eqs_view(F@) =~= f1.update(i as int, with_equal(f1[i as int], Seq::empty())));
        }
        assert(eqs_view(F@) == clear_step(fb, i as int));
    }
    keep_named(F)
}

/// `w` with every variable named in `eqs` replaced by `to`.
pub open spec fn subst_term(to: TermV, eqs: Seq<TermV>, w: TermV) -> TermV
    decreases w,
{
    if w.var == 1 {
        if names(eqs, w.value) {
            to
        } else {
            w
        }
    } else {
        TermV { value: w.value, var: w.var, children: subst_list(to, eqs, w.children) }
    }
}

/// Each of `ws` with the variables named in `eqs` replaced by `to`.
pub open spec fn subst_list(to: TermV, eqs: Seq<TermV>, ws: Seq<TermV>) -> Seq<TermV>
    decreases ws,
{
    Seq::new(ws.len(), |i: int| if 0 <= i < ws.len() { subst_term(to, eqs, ws[i]) } else { ws[i] })
}

fn subst_ref(to: &Term, eqs: &Vec<Term>, what: &Vec<Term>) -> (res: Vec<Term>)
    ensures
        terms_view(res@) == subst_list(to@, terms_view(eqs@), terms_view(what@)),
    decreases what@,
{
    let ghost ev = terms_view(eqs@);
    let ghost wv = terms_view(what@);
    let mut out: Vec<Term> = Vec::new();
    let mut i: usize = 0;
    while i < what.len()
        invariant
            i <= what.len(),
            ev == terms_view(eqs@),
            wv == terms_view(what@),
            terms_view(out@) == subst_list(to@, ev, wv).take(i as int),
        decreases what.len() - i,
    {
        let w = &what[i];
        assert(wv[i as int] == w@);
        let ghost prev = terms_view(out@);
        let n = if w.var == 1 {
            if names_exec(eqs, &w.value) {
                clone_term(to)
            } else {
                clone_term(w)
            }
        } else {
            proof {
                lemma_children_view(*w);
                assert(decreases_to!(what@ => what@[i as int]));
            }
            let children = subst_ref(to, eqs, &w.children);
            let n = Term { value: w.value.clone(), var: w.var, children };
            proof {
                lemma_children_view(n);
            }
            n
        };
        assert(n@ == subst_term(to@, ev, wv[i as int]));
        out.push(n);
        assert(terms_view(out@) =~= prev.push(n@));
        assert(subst_list(to@, ev, wv).take(i + 1) =~= subst_list(to@, ev, wv).take(i as int).push(subst_list(to@, ev, wv)[i as int]));
        i += 1;
    }
    assert(subst_list(to@, ev, wv).take(i as int) =~= subst_list(to@, ev, wv));
    out
}

/// Replaces the variables named in `eqs` by `to` in each of `what`.
pub fn sub_unify(to: Term, eqs: Vec<Term>, what: Vec<Term>) -> (res: Vec<Term>)
    ensures
        terms_view(res@) == subst_list(to@, terms_view(eqs@), terms_view(what@)),
{
    subst_ref(&to, &eqs, &what)
}

/// Every equation of `eqs` has a term.
pub open spec fn all_valued(eqs: Seq<EqTermV>) -> bool {
    forall|k: int| 0 <= k < eqs.len() ==> (#[trigger] eqs[k]).terms.len() > 0
}

/// The last equation before `j` whose first term is written as that of
/// equation `i`.
pub open spec fn last_match(eqs: Seq<EqTermV>, i: int, j: int) -> Option<int>
    decreases j,
{
    if j <= 0 {
        None
    } else if full_text(eqs[i].terms[0]) == full_text(eqs[j - 1].terms[0]) {
        Some(j - 1)
    } else {
        last_match(eqs, i, j - 1)
    }
}

/// Equation `i` merged into the last one before it with the same first
/// term: that one takes its variables and it loses them.
pub open spec fn merge_at(eqs: Seq<EqTermV>, i: int) -> Seq<EqTermV> {
    match last_match(eqs, i, i) {
        None => eqs,
        Some(j) => eqs.update(j, with_equal(eqs[j], add_vars_spec(eqs[j].equal, eqs[i].equal))).update(i, with_equal(eqs[i], Seq::empty())),
    }
}

/// [`merge_at`] on equations `k - 1` down to `0`.
pub open spec fn merge_from(eqs: Seq<EqTermV>, k: int) -> Seq<EqTermV>
    decreases k,
{
    if k <= 0 {
        eqs
    } else {
        merge_from(merge_at(eqs, k - 1), k - 1)
    }
}

pub open spec fn merge_equal_spec(eqs: Seq<EqTermV>) -> Seq<EqTermV> {
    merge_from(eqs, eqs.len() as int)
}

/// The last equation before `i` whose first term is written as that of
/// equation `i` (see [`last_match`]).
fn last_match_exec(A: &Vec<EqTerm>, i: usize) -> (res: Option<usize>)
    requires
        i < A@.len(),
        i > 0 ==> all_valued(eqs_view(A@)),
    ensures
        match last_match(eqs_view(A@), i as int, i as int) {
            Some(j) => res matches Some(r) && r as int == j,
            None => res is None,
        },
        res matches Some(j) ==> j < i,
{
    let ghost av = eqs_view(A@);
    if i == 0 {
        return None;
    }
    assert(av[i as int] == A@[i as int]@);
    assert(av[i as int].terms[0] == A@[i as int].terms@[0]@);
    let target = text_of(&A[i].terms[0]);
    let mut j: usize = i;
    while j > 0
        invariant
            j <= i < A@.len(),
            av == eqs_view(A@),
            all_valued(av),
            target@ == full_text(av[i as int].terms[0]),
            last_match(av, i as int, i as int) == last_match(av, i as int, j as int),
        decreases j,
    {
        assert(av[j - 1] == A@[j - 1]@);
        assert(av[j - 1].terms[0] == A@[j - 1].terms@[0]@);
        let t = text_of(&A[j - 1].terms[0]);
        if t == target {
            return Some(j - 1);
        }
        j -= 1;
    }
    None
}

/// Merges the equations with the same first term (see [`merge_from`]).
pub fn merge_equal(A: Vec<EqTerm>) -> (res: Vec<EqTerm>)
    requires
        A@.len() > 1 ==> all_valued(eqs_view(A@)),
    ensures
        eqs_view(res@) == merge_equal_spec(eqs_view(A@)),
{
    let ghost a0 = eqs_view(A@);
    let mut A = A;
    let mut i: usize = A.len();
    while i > 0
        invariant
            i <= A.len(),
            A.len() == a0.len(),
            A@.len() > 1 ==> all_valued(eqs_view(A@)),
            merge_from(eqs_view(A@), i as int) == merge_equal_spec(a0),
        decreases i,
    {
        i -= 1;
        let ghost ab = eqs_view(A@);
        match last_match_exec(&A, i) {
            None => {},
            Some(j) => {
                assert(ab[j as int] == A@[j as int]@);
                assert(ab[i as int] == A@[i as int]@);
                let merged = add_vars(clone_terms(&A[j].equal), clone_terms(&A[i].equal));
                let ej = EqTerm { instances: A[j].instances, equal: merged, terms: clone_terms(&A[j].terms) };
                let ei = EqTerm { instances: A[i].instances, equal: Vec::new(), terms: clone_terms(&A[i].terms) };
                assert(ei@.equal =~= Seq::<TermV>::empty());
                A.set(j, ej);
                A.set(i, ei);
                assert(eqs_view(A@) =~= merge_at(ab, i as int));
            },
        }
        assert(eqs_view(A@) == merge_at(ab, i as int));
        assert forall|k: int| A@.len() > 1 && 0 <= k < eqs_view(A@).len() implies (#[trigger] eqs_view(A@)[k]).terms.len() > 0 by {
            assert(eqs_view(A@)[k].terms == ab[k].terms);
        }
    }
    A
}

/// `e` with the terms `terms`.
pub open spec fn with_terms(e: EqTermV, terms: Seq<TermV>) -> EqTermV {
    EqTermV { instances: e.instances, equal: e.equal, terms }
}

/// The terms of each equation before `i` with the variables of equation
/// `i` replaced by its first term.
pub open spec fn sys_step(eqs: Seq<EqTermV>, i: int) -> Seq<EqTermV> {
    Seq::new(eqs.len(), |j: int| if j < i { with_terms(eqs[j], subst_list(eqs[i].terms[0], eqs[i].equal, eqs[j].terms)) } else { eqs[j] })
}

/// Back substitution: [`sys_step`] for the equations `k - 1` down to `1`.
pub open spec fn sys_from(eqs: Seq<EqTermV>, k: int) -> Seq<EqTermV>
    decreases k,
{
    if k <= 1 {
        eqs
    } else {
        sys_from(sys_step(eqs, k - 1), k - 1)
    }
}

/// The solved system: back substitution, then merging the equations with
/// the same first term (see [`merge_equal_spec`]), then dropping the
/// equations left without variables.
pub open spec fn unify_system_spec(eqs: Seq<EqTermV>) -> Seq<EqTermV> {
    merge_equal_spec(sys_from(eqs, eqs.len() as int)).filter(named_pred())
}

proof fn lemma_sys_valued(eqs: Seq<EqTermV>, k: int)
    requires
        all_valued(eqs),
        k <= eqs.len(),
    ensures
        all_valued(sys_from(eqs, k)),
        sys_from(eqs, k).len() == eqs.len(),
    decreases k,
{
    if k > 1 {
        let s = sys_step(eqs, k - 1);
        assert forall|j: int| 0 <= j < s.len() implies (#[trigger] s[j]).terms.len() > 0 by {
            if j < k - 1 {
                assert(s[j].terms.len() == eqs[j].terms.len());
            }
        }
        lemma_sys_valued(s, k - 1);
    }
}

proof fn lemma_last_match_before(eqs: Seq<EqTermV>, i: int, j: int)
    ensures
        last_match(eqs, i, j) matches Some(m) ==> 0 <= m < j,
    decreases j,
{
    if j > 0 {
        lemma_last_match_before(eqs, i, j - 1);
    }
}

proof fn lemma_merge_from_first(eqs: Seq<EqTermV>, k: int)
    requires
        eqs.len() > 0,
        eqs[0].equal.len() > 0,
        k <= eqs.len(),
    ensures
        merge_from(eqs, k).len() == eqs.len(),
        merge_from(eqs, k)[0].equal.len() > 0,
        forall|j: int| 0 <= j < eqs.len() ==> (#[trigger] merge_from(eqs, k)[j]).terms == eqs[j].terms,
    decreases k,
{
    if k > 0 {
        let i = k - 1;
        let m = merge_at(eqs, i);
        lemma_last_match_before(eqs, i, i);
        if let Some(j) = last_match(eqs, i, i) {
            crate::unification::laws::law_add_vars(eqs[j].equal, eqs[i].equal);
            assert(m[0].equal.len() > 0);
        }
        assert forall|j: int| 0 <= j < eqs.len() implies (#[trigger] m[j]).terms == eqs[j].terms by {}
        lemma_merge_from_first(m, i);
    }
}

proof fn lemma_sys_named(eqs: Seq<EqTermV>, k: int)
    requires
        all_named(eqs),
    ensures
        all_named(sys_from(eqs, k)),
        sys_from(eqs, k).len() == eqs.len(),
    decreases k,
{
    if k > 1 {
        let s = sys_step(eqs, k - 1);
        assert forall|j: int| 0 <= j < s.len() implies (#[trigger] s[j]).equal.len() > 0 by {
            assert(s[j].equal == eqs[j].equal);
        }
        lemma_sys_named(s, k - 1);
    }
}

/// A solved system with a named and valued first equation stays non-empty,
/// named and valued when it is reduced.
pub proof fn lemma_unify_system_shape(eqs: Seq<EqTermV>)
    requires
        eqs.len() > 0,
        all_named(eqs),
        all_valued(eqs),
    ensures
        unify_system_spec(eqs).len() > 0,
        all_named(unify_system_spec(eqs)),
        all_valued(unify_system_spec(eqs)),
{
    broadcast use vstd::seq_lib::group_filter_ensures;
    let s = sys_from(eqs, eqs.len() as int);
    lemma_sys_named(eqs, eqs.len() as int);
    lemma_sys_valued(eqs, eqs.len() as int);
    let m = merge_equal_spec(s);
    assert(s[0].equal.len() > 0);
    lemma_merge_from_first(s, s.len() as int);
    let r = m.filter(named_pred());
    assert(m =~= seq![m[0]] + m.drop_first());
    m.drop_first().lemma_filter_prepend(m[0], named_pred());
    assert(r.len() > 0);
    assert forall|k: int| 0 <= k < r.len() implies (#[trigger] r[k]).equal.len() > 0 by {
        m.lemma_filter_pred(named_pred(), k);
    }
    assert forall|k: int| 0 <= k < r.len() implies (#[trigger] r[k]).terms.len() > 0 by {
        assert(r.contains(r[k]));
        m.lemma_filter_contains_rev(named_pred(), r[k]);
        let w = choose|w: int| 0 <= w < m.len() && m[w] == r[k];
        assert(m[w].terms == s[w].terms);
    }
}

/// Merging repeated names keeps equations named and valued.
pub proof fn lemma_merge_equals_shape(a: Seq<EqTermV>)
    requires
        all_named(a),
        all_valued(a),
    ensures
        merge_equals_spec(a).len() == a.len(),
        all_named(merge_equals_spec(a)),
        all_valued(merge_equals_spec(a)),
{
    assert forall|k: int| 0 <= k < a.len() implies (#[trigger] merge_equals_spec(a)[k]).equal.len() > 0 by {
        crate::unification::laws::law_add_vars(Seq::empty(), a[k].equal);
        assert(names(add_vars_spec(Seq::empty(), a[k].equal), a[k].equal[0].value));
    }
}

/// Solves the system by back substitution and merges it (see
/// [`unify_system_spec`]).
pub fn unify_system(A: Vec<EqTerm>) -> (res: Vec<EqTerm>)
    requires
        A@.len() > 1 ==> all_valued(eqs_view(A@)),
    ensures
        eqs_view(res@) == unify_system_spec(eqs_view(A@)),
{
    let ghost a0 = eqs_view(A@);
    let mut A = A;
    let mut i: usize = A.len();
    while i > 1
        invariant
            i <= A.len(),
            A@.len() == a0.len(),
            a0.len() > 1 ==> all_valued(eqs_view(A@)),
            sys_from(eqs_view(A@), i as int) == sys_from(a0, a0.len() as int),
        decreases i,
    {
        i -= 1;
        let ghost ts = eqs_view(A@);
        assert(ts[i as int] == A@[i as int]@);
        assert(ts[i as int].terms[0] == A@[i as int].terms@[0]@);
        let to = clone_term(&A[i].terms[0]);
        let vs = clone_terms(&A[i].equal);
        let mut j: usize = i;
        while j > 0
            invariant
                j <= i < A@.len(),
                A@.len() == ts.len(),
                a0.len() > 1,
                all_valued(ts),
                to@ == ts[i as int].terms[0],
                terms_view(vs@) == ts[i as int].equal,
                forall|k: int| 0 <= k < ts.len() ==> #[trigger] eqs_view(A@)[k] == if j <= k < i { with_terms(ts[k], subst_list(ts[i as int].terms[0], ts[i as int].equal, ts[k].terms)) } else { ts[k] },
            decreases j,
        {
            j -= 1;
            assert(eqs_view(A@)[j as int] == A@[j as int]@);
            let nt = subst_ref(&to, &vs, &A[j].terms);
            let e = EqTerm { instances: A[j].instances, equal: clone_terms(&A[j].equal), terms: nt };
            let ghost before = eqs_view(A@);
            A.set(j, e);
            assert forall|k: int| 0 <= k < ts.len() implies #[trigger] eqs_view(A@)[k] == if j <= k < i { with_terms(ts[k], subst_list(ts[i as int].terms[0], ts[i as int].equal, ts[k].terms)) } else { ts[k] } by {
                if k != j {
                    assert(eqs_view(A@)[k] == before[k]);
                }
            }
        }
        assert(eqs_view(A@) =~= sys_step(ts, i as int));
        assert forall|k: int| 0 <= k < eqs_view(A@).len() implies (#[trigger] eqs_view(A@)[k]).terms.len() > 0 by {
            assert(eqs_view(A@)[k] == sys_step(ts, i as int)[k]);
            if k < i {
                assert(eqs_view(A@)[k].terms.len() == ts[k].terms.len());
            }
        }
    }
    proof {
        if a0.len() > 1 {
            lemma_sys_valued(a0, a0.len() as int);
        }
    }
    let merged = merge_equal(A);
    keep_named(merged)
}

/// The number of terms of `vs` named `v`.
pub open spec fn count_named(vs: Seq<TermV>, v: Seq<char>) -> int
    decreases vs.len(),
{
    if vs.len() == 0 {
        0
    } else {
        count_named(vs.drop_last(), v) + if vs.last().value == v { 1int } else { 0int }
    }
}

/// `e` counted once more for each of its variables named `v`.
pub open spec fn bumped(e: EqTermV, v: Seq<char>) -> EqTermV {
    EqTermV { instances: e.instances + count_named(e.equal, v), equal: e.equal, terms: e.terms }
}

pub open spec fn bump_all(eqs: Seq<EqTermV>, v: Seq<char>) -> Seq<EqTermV> {
    eqs.map_values(|e: EqTermV| bumped(e, v))
}

/// Counting the variables of `t`: each occurrence of a variable adds, to
/// every equation, the number of its variables of that name.
pub open spec fn fill_term(eqs: Seq<EqTermV>, t: TermV) -> Seq<EqTermV>
    decreases t,
{
    if t.var == 1 {
        bump_all(eqs, t.value)
    } else {
        fill_list(eqs, t.children)
    }
}

/// Counting the variables of the terms `ts` in turn.
pub open spec fn fill_list(eqs: Seq<EqTermV>, ts: Seq<TermV>) -> Seq<EqTermV>
    decreases ts,
{
    if ts.len() == 0 {
        eqs
    } else {
        fill_term(fill_list(eqs, ts.subrange(0, ts.len() - 1)), ts[ts.len() - 1])
    }
}

/// Every count fits an `i32`.
pub open spec fn counts_fit(eqs: Seq<EqTermV>) -> bool {
    forall|i: int| 0 <= i < eqs.len() ==> (#[trigger] eqs[i]).instances <= i32::MAX
}

/// `b` is `a` counted further: the same equations with counts no smaller.
pub open spec fn grows(a: Seq<EqTermV>, b: Seq<EqTermV>) -> bool {
    &&& a.len() == b.len()
    &&& forall|k: int| 0 <= k < a.len() ==> (#[trigger] b[k]).instances >= a[k].instances
        && b[k].equal == a[k].equal && b[k].terms == a[k].terms
}

proof fn lemma_count_nonneg(vs: Seq<TermV>, v: Seq<char>)
    ensures
        count_named(vs, v) >= 0,
    decreases vs.len(),
{
    if vs.len() > 0 {
        lemma_count_nonneg(vs.drop_last(), v);
    }
}

proof fn lemma_count_prefix(vs: Seq<TermV>, v: Seq<char>, j: int)
    requires
        0 <= j <= vs.len(),
    ensures
        count_named(vs.take(j), v) <= count_named(vs, v),
    decreases vs.len() - j,
{
    if j < vs.len() {
        lemma_count_prefix(vs, v, j + 1);
        assert(vs.take(j + 1).drop_last() =~= vs.take(j));
        lemma_count_nonneg(Seq::empty(), v);
    } else {
        assert(vs.take(j) =~= vs);
    }
}

pub proof fn lemma_grows_trans(a: Seq<EqTermV>, b: Seq<EqTermV>, c: Seq<EqTermV>)
    requires
        grows(a, b),
        grows(b, c),
    ensures
        grows(a, c),
{
    assert forall|k: int| 0 <= k < a.len() implies (#[trigger] c[k]).instances >= a[k].instances
        && c[k].equal == a[k].equal && c[k].terms == a[k].terms by {
        assert(c[k].instances >= b[k].instances);
    }
}

pub proof fn lemma_unfit_grows(a: Seq<EqTermV>, b: Seq<EqTermV>)
    requires
        grows(a, b),
        !counts_fit(a),
    ensures
        !counts_fit(b),
{
    let k = choose|k: int| 0 <= k < a.len() && !((#[trigger] a[k]).instances <= i32::MAX);
    assert(b[k].instances >= a[k].instances);
}

proof fn lemma_fill_term_grows(eqs: Seq<EqTermV>, t: TermV)
    ensures
        grows(eqs, fill_term(eqs, t)),
    decreases t,
{
    if t.var == 1 {
        assert forall|k: int| 0 <= k < eqs.len() implies (#[trigger] bump_all(eqs, t.value)[k]).instances >= eqs[k].instances by {
            lemma_count_nonneg(eqs[k].equal, t.value);
        }
    } else {
        lemma_fill_list_grows(eqs, t.children);
    }
}

pub proof fn lemma_fill_list_grows(eqs: Seq<EqTermV>, ts: Seq<TermV>)
    ensures
        grows(eqs, fill_list(eqs, ts)),
    decreases ts,
{
    if ts.len() > 0 {
        let pre = ts.subrange(0, ts.len() - 1);
        lemma_fill_list_grows(eqs, pre);
        lemma_fill_term_grows(fill_list(eqs, pre), ts[ts.len() - 1]);
        lemma_grows_trans(eqs, fill_list(eqs, pre), fill_list(eqs, ts));
    }
}

proof fn lemma_fill_prefix_grows(eqs: Seq<EqTermV>, ts: Seq<TermV>, k: int)
    requires
        0 <= k <= ts.len(),
    ensures
        grows(fill_list(eqs, ts.take(k)), fill_list(eqs, ts)),
    decreases ts.len() - k,
{
    if k == ts.len() {
        assert(ts.take(k) =~= ts);
    } else {
        lemma_fill_prefix_grows(eqs, ts, k + 1);
        let pre = ts.take(k + 1);
        assert(pre.subrange(0, pre.len() - 1) =~= ts.take(k));
        lemma_fill_term_grows(fill_list(eqs, ts.take(k)), pre[pre.len() - 1]);
        lemma_grows_trans(fill_list(eqs, ts.take(k)), fill_list(eqs, pre), fill_list(eqs, ts));
    }
}

/// Counts the occurrences of the variables of `terms` in the equations `U`
/// (see [`fill_list`]); `None` when a count goes past `i32::MAX`.
pub fn fill_eq(U: Vec<EqTerm>, terms: Vec<Term>) -> (res: Option<Vec<EqTerm>>)
    ensures
        match res {
            Some(r) => eqs_view(r@) == fill_list(eqs_view(U@), terms_view(terms@)),
            None => !counts_fit(fill_list(eqs_view(U@), terms_view(terms@))),
        },
{
    fill_ref(U, &terms)
}

/// Counts the variables named `v` in every equation; `None` on overflow.
fn bump_exec(U: Vec<EqTerm>, v: &String) -> (res: Option<Vec<EqTerm>>)
    ensures
        match res {
            Some(r) => eqs_view(r@) == bump_all(eqs_view(U@), v@),
            None => !counts_fit(bump_all(eqs_view(U@), v@)),
        },
{
    let ghost u0 = eqs_view(U@);
    let mut out: Vec<EqTerm> = Vec::new();
    let mut i: usize = 0;
    while i < U.len()
        invariant
            i <= U.len(),
            u0 == eqs_view(U@),
            eqs_view(out@) == bump_all(u0, v@).take(i as int),
        decreases U.len() - i,
    {
        let e = &U[i];
        assert(u0[i as int] == e@);
        let ghost ev = e@;
        let mut inst: i32 = e.instances;
        let mut j: usize = 0;
        while j < e.equal.len()
            invariant
                i < U.len(),
                e == U@[i as int],
                ev == e@,
                u0 == eqs_view(U@),
                u0[i as int] == ev,
                j <= e.equal.len(),
                inst == ev.instances + count_named(ev.equal.take(j as int), v@),
            decreases e.equal.len() - j,
        {
            assert(ev.equal.take(j + 1).drop_last() =~= ev.equal.take(j as int));
            assert(ev.equal[j as int] == e.equal@[j as int]@);
            if e.equal[j].value == *v {
                assert(ev.equal[j as int].value == v@);
                if inst == i32::MAX {
                    proof {
                        lemma_count_prefix(ev.equal, v@, j + 1);
                        assert(bump_all(u0, v@)[i as int].instances > i32::MAX);
                    }
                    return None;
                }
                inst = inst + 1;
            }
            j += 1;
        }
        assert(ev.equal.take(j as int) =~= ev.equal);
        let ghost prev = eqs_view(out@);
        let ne = EqTerm { instances: inst, equal: clone_terms(&e.equal), terms: clone_terms(&e.terms) };
        out.push(ne);
        assert(eqs_view(out@) =~= prev.push(ne@));
        assert(bump_all(u0, v@).take(i + 1) =~= bump_all(u0, v@).take(i as int).push(bumped(u0[i as int], v@)));
        i += 1;
    }
    assert(bump_all(u0, v@).take(i as int) =~= bump_all(u0, v@));
    Some(out)
}

#[verifier::loop_isolation(false)]
fn fill_ref(U: Vec<EqTerm>, terms: &Vec<Term>) -> (res: Option<Vec<EqTerm>>)
    ensures
        match res {
            Some(r) => eqs_view(r@) == fill_list(eqs_view(U@), terms_view(terms@)),
            None => !counts_fit(fill_list(eqs_view(U@), terms_view(terms@))),
        },
    decreases terms@,
{
    let ghost u0 = eqs_view(U@);
    let ghost tv = terms_view(terms@);
    let mut U = U;
    let mut k: usize = 0;
    while k < terms.len()
        invariant
            k <= terms.len(),
            tv == terms_view(terms@),
            eqs_view(U@) == fill_list(u0, tv.take(k as int)),
        decreases terms.len() - k,
    {
        let ghost pre = tv.take(k + 1);
        assert(pre.subrange(0, pre.len() - 1) =~= tv.take(k as int));
        assert(pre[pre.len() - 1] == tv[k as int]);
        assert(tv[k as int] == terms@[k as int]@);
        assert(fill_list(u0, pre) == fill_term(fill_list(u0, tv.take(k as int)), tv[k as int]));
        let t = &terms[k];
        let r = if t.var == 1 {
            bump_exec(U, &t.value)
        } else {
            proof {
                lemma_children_view(*t);
                assert(decreases_to!(terms@ => terms@[k as int]));
            }
            fill_ref(U, &t.children)
        };
        match r {
            None => {
                proof {
                    lemma_fill_prefix_grows(u0, tv, k + 1);
                    lemma_unfit_grows(fill_list(u0, pre), fill_list(u0, tv));
                }
                return None;
            },
            Some(u1) => {
                U = u1;
            },
        }
        k += 1;
    }
    assert(tv.take(k as int) =~= tv);
    Some(U)
}

} // verus!
