//! Properties of the unification tools that hold for every input.
use vstd::prelude::*;
use crate::unification::term::{TermV, full_text, join_text};
use crate::unification::parse::{ParseError, cons_loop, parse_cons_spec, start_loop, skip_spaces, var_term};
use crate::text::{alphabetic, is_digit};
use crate::text::{nat_digits, decimal};
use crate::unification::system::{
    EqTermV, names, add_vars_spec, merge_equals_spec, with_equal, subst_term, subst_list, remove_spec, kept_pred,
    skull_text, clean_spec, alive_pred, all_named, clear_empty_spec, sys_from, sys_step,
};
use crate::unification::separate::UnifyFailure;
use crate::unification::solve::{mm_spec, getcf_spec, unify_terms_spec, start_eqs};

verus! {

/// The names of `vs` are pairwise distinct.
pub open spec fn distinct_names(vs: Seq<TermV>) -> bool {
    forall|a: int, b: int| 0 <= a < b < vs.len() ==> (#[trigger] vs[a]).value != (#[trigger] vs[b]).value
}

/// Adding variables keeps those already there, names every added name, and
/// keeps the names distinct when they were.
pub proof fn law_add_vars(eqs: Seq<TermV>, neqs: Seq<TermV>)
    ensures
        add_vars_spec(eqs, neqs).len() >= eqs.len(),
        add_vars_spec(eqs, neqs).subrange(0, eqs.len() as int) == eqs,
        forall|i: int| 0 <= i < neqs.len() ==> names(add_vars_spec(eqs, neqs), #[trigger] neqs[i].value),
        distinct_names(eqs) ==> distinct_names(add_vars_spec(eqs, neqs)),
    decreases neqs.len(),
{
    if neqs.len() > 0 {
        let pre = neqs.drop_last();
        law_add_vars(eqs, pre);
        let cur = add_vars_spec(eqs, pre);
        let x = neqs.last();
        let out = add_vars_spec(eqs, neqs);
        if !names(cur, x.value) {
            assert(out == cur.push(x));
            assert(out.subrange(0, eqs.len() as int) =~= cur.subrange(0, eqs.len() as int));
            assert(names(out, x.value)) by {
                assert(out[cur.len() as int].value == x.value);
            }
            assert forall|i: int| 0 <= i < neqs.len() implies names(out, #[trigger] neqs[i].value) by {
                if i < pre.len() {
                    assert(pre[i] == neqs[i]);
                    assert(names(cur, pre[i].value));
                    let j = choose|j: int| 0 <= j < cur.len() && #[trigger] cur[j].value == pre[i].value;
                    assert(out[j] == cur[j]);
                }
            }
            if distinct_names(eqs) {
                assert forall|a: int, b: int| 0 <= a < b < out.len() implies (#[trigger] out[a]).value != (#[trigger] out[b]).value by {
                    if b == cur.len() {
                        assert(out[a] == cur[a]);
                        if cur[a].value == x.value {
                            assert(names(cur, x.value));
                        }
                    } else {
                        assert(out[a] == cur[a]);
                        assert(out[b] == cur[b]);
                    }
                }
            }
        } else {
            assert forall|i: int| 0 <= i < neqs.len() implies names(out, #[trigger] neqs[i].value) by {
                if i < pre.len() {
                    assert(pre[i] == neqs[i]);
                }
            }
        }
    }
}

/// After dropping repeated names, the variables of every equation have
/// distinct names, and every name is still there.
pub proof fn law_merge_equals_distinct(a: Seq<EqTermV>)
    ensures
        merge_equals_spec(a).len() == a.len(),
        forall|i: int| 0 <= i < a.len() ==> distinct_names(#[trigger] merge_equals_spec(a)[i].equal),
        forall|i: int, j: int| 0 <= i < a.len() && 0 <= j < a[i].equal.len()
            ==> names(merge_equals_spec(a)[i].equal, #[trigger] a[i].equal[j].value),
{
    assert forall|i: int| 0 <= i < a.len() implies distinct_names(#[trigger] merge_equals_spec(a)[i].equal) by {
        law_add_vars(Seq::empty(), a[i].equal);
    }
    assert forall|i: int, j: int| 0 <= i < a.len() && 0 <= j < a[i].equal.len()
        implies names(merge_equals_spec(a)[i].equal, #[trigger] a[i].equal[j].value) by {
        law_add_vars(Seq::empty(), a[i].equal);
    }
}

/// No variable of `t` has a name among `eqs`.
pub open spec fn free_of(eqs: Seq<TermV>, t: TermV) -> bool
    decreases t,
{
    if t.var == 1 {
        !names(eqs, t.value)
    } else {
        free_of_list(eqs, t.children)
    }
}

/// No variable of the terms `ts` has a name among `eqs`.
pub open spec fn free_of_list(eqs: Seq<TermV>, ts: Seq<TermV>) -> bool
    decreases ts,
{
    if ts.len() == 0 {
        true
    } else {
        free_of_list(eqs, ts.subrange(0, ts.len() - 1)) && free_of(eqs, ts[ts.len() - 1])
    }
}

/// Substituting for variables that do not occur leaves a term unchanged.
pub proof fn law_subst_free(to: TermV, eqs: Seq<TermV>, w: TermV)
    requires
        free_of(eqs, w),
    ensures
        subst_term(to, eqs, w) == w,
    decreases w,
{
    if w.var != 1 {
        law_subst_free_list(to, eqs, w.children);
    }
}

/// Substituting for variables that do not occur leaves terms unchanged.
pub proof fn law_subst_free_list(to: TermV, eqs: Seq<TermV>, ts: Seq<TermV>)
    requires
        free_of_list(eqs, ts),
    ensures
        subst_list(to, eqs, ts) == ts,
    decreases ts,
{
    if ts.len() > 0 {
        let pre = ts.subrange(0, ts.len() - 1);
        law_subst_free_list(to, eqs, pre);
        law_subst_free(to, eqs, ts[ts.len() - 1]);
        assert forall|i: int| 0 <= i < ts.len() implies #[trigger] subst_list(to, eqs, ts)[i] == ts[i] by {
            if i < ts.len() - 1 {
                assert(pre[i] == ts[i]);
                assert(subst_list(to, eqs, pre)[i] == pre[i]);
            }
        }
        assert(subst_list(to, eqs, ts) =~= ts);
    }
}

/// After removing the equations on `vars` none is left on them; after
/// dropping the marked equations none is marked.
pub proof fn law_remove_leaves_none(eqs: Seq<EqTermV>, vars: Seq<TermV>)
    ensures
        forall|i: int| 0 <= i < remove_spec(eqs, vars).len() ==> (#[trigger] remove_spec(eqs, vars)[i]).equal != vars,
        forall|i: int| 0 <= i < clean_spec(eqs).len() ==> (#[trigger] clean_spec(eqs)[i]).equal[0].value != skull_text(),
{
    assert forall|i: int| 0 <= i < remove_spec(eqs, vars).len() implies (#[trigger] remove_spec(eqs, vars)[i]).equal != vars by {
        eqs.lemma_filter_pred(kept_pred(vars), i);
    }
    assert forall|i: int| 0 <= i < clean_spec(eqs).len() implies (#[trigger] clean_spec(eqs)[i]).equal[0].value != skull_text() by {
        eqs.lemma_filter_pred(alive_pred(), i);
    }
}

/// The written form of a variable is its name.
pub proof fn law_variable_text(t: TermV)
    requires
        t.var != 0,
    ensures
        full_text(t) == t.value,
{
}

/// The decimal form of a number that is not negative is made of digits, and
/// has no leading zero unless it is zero itself.
pub proof fn law_decimal_digits(n: nat)
    ensures
        nat_digits(n).len() > 0,
        forall|i: int| 0 <= i < nat_digits(n).len() ==> '0' <= #[trigger] nat_digits(n)[i] <= '9',
        n > 0 ==> nat_digits(n)[0] != '0',
        decimal(n as int) == nat_digits(n),
    decreases n,
{
    if n >= 10 {
        law_decimal_digits(n / 10);
        assert forall|i: int| 0 <= i < nat_digits(n).len() implies '0' <= #[trigger] nat_digits(n)[i] <= '9' by {
            if i < nat_digits(n / 10).len() {
                assert(nat_digits(n)[i] == nat_digits(n / 10)[i]);
            }
        }
        assert(nat_digits(n)[0] == nat_digits(n / 10)[0]);
    }
}

/// A character that may stand in a name: an alphabetic character or an
/// ASCII digit.
pub open spec fn name_char(c: char) -> bool {
    is_digit(c) || alphabetic(c)
}

/// A name the parser accepts: not empty, starting with an alphabetic
/// character, made of alphabetic characters and ASCII digits.
pub open spec fn good_name(v: Seq<char>) -> bool {
    &&& v.len() > 0
    &&& !is_digit(v[0])
    &&& forall|i: int| 0 <= i < v.len() ==> name_char(#[trigger] v[i])
}

/// A term that its written form describes: every name is good, every
/// variable has no arguments, every other term is a constructor.
pub open spec fn readable(t: TermV) -> bool
    decreases t,
{
    good_name(t.value) && if t.var == 0 {
        readable_list(t.children)
    } else {
        t.var == 1 && t.children.len() == 0
    }
}

/// Every term of `ts` is readable.
pub open spec fn readable_list(ts: Seq<TermV>) -> bool
    decreases ts,
{
    if ts.len() == 0 {
        true
    } else {
        readable_list(ts.subrange(0, ts.len() - 1)) && readable(ts[ts.len() - 1])
    }
}

/// What the argument reader has gathered after reading the term `c`: the
/// arguments `ch` (with `c` when it is a constructor), the name of `c`, and
/// whether `c` was a constructor.
pub open spec fn after_child(ch: Seq<TermV>, c: TermV) -> (Seq<TermV>, Seq<char>, bool) {
    (if c.var == 0 { ch.push(c) } else { ch }, c.value, c.var == 0)
}

proof fn lemma_read_name(s: Seq<char>, p: int, ch: Seq<TermV>, saw: bool, name: Seq<char>, k: int)
    requires
        0 <= p,
        0 <= k <= name.len(),
        good_name(name),
        p + name.len() < s.len(),
        s.subrange(p, p + name.len()) == name,
    ensures
        cons_loop(s, p + k, ch, name.take(k), saw) == cons_loop(s, p + name.len(), ch, name, saw),
    decreases name.len() - k,
{
    if k == name.len() {
        assert(name.take(k) =~= name);
    } else {
        let c = s[p + k];
        assert(c == s.subrange(p, p + name.len())[k]);
        assert(name_char(name[k]));
        assert(name.take(k).push(c) =~= name.take(k + 1));
        assert(cons_loop(s, p + k, ch, name.take(k), saw) == cons_loop(s, p + k + 1, ch, name.take(k + 1), saw));
        lemma_read_name(s, p, ch, saw, name, k + 1);
    }
}

proof fn lemma_read_child(s: Seq<char>, p: int, ch: Seq<TermV>, c: TermV)
    requires
        0 <= p,
        readable(c),
        p + full_text(c).len() < s.len(),
        s.len() <= usize::MAX,
        s.subrange(p, p + full_text(c).len()) == full_text(c),
        s[p + full_text(c).len()] == ',' || s[p + full_text(c).len()] == ')',
    ensures
        cons_loop(s, p, ch, Seq::empty(), false) == ({
            let (ch2, curr, saw) = after_child(ch, c);
            cons_loop(s, p + full_text(c).len(), ch2, curr, saw)
        }),
    decreases c, 2int,
{
    let name = c.value;
    let x = full_text(c);
    assert(x.subrange(0, name.len() as int) =~= name);
    assert(s.subrange(p, p + name.len()) =~= name) by {
        assert forall|k: int| 0 <= k < name.len() implies s.subrange(p, p + name.len())[k] == name[k] by {
            assert(s.subrange(p, p + x.len())[k] == x[k]);
        }
    }
    assert(name.take(0) =~= Seq::<char>::empty());
    if c.var == 0 {
        let q0 = p + name.len();
        let j = join_text(c.children);
        assert(x == name + seq!['('] + j + seq![')']);
        lemma_read_name(s, p, ch, false, name, 0);
        assert(s[q0] == s.subrange(p, p + x.len())[name.len() as int]);
        assert(s[q0] == '(');
        let q1 = q0 + 1 + j.len();
        assert(s.subrange(q0 + 1, q1) =~= j) by {
            assert forall|k: int| 0 <= k < j.len() implies s.subrange(q0 + 1, q1)[k] == j[k] by {
                assert(s.subrange(p, p + x.len())[name.len() + 1 + k] == x[name.len() + 1 + k]);
            }
        }
        assert(s[q1] == s.subrange(p, p + x.len())[x.len() - 1]);
        lemma_read_cons(s, q0 + 1, c.children);
        assert(q1 + 1 == p + x.len());
        assert(TermV { value: name, var: 0, children: c.children } == c);
    } else {
        lemma_read_name(s, p, ch, false, name, 0);
        assert(x == name);
    }
}

proof fn lemma_readable_parts(ts: Seq<TermV>)
    requires
        ts.len() > 0,
        readable_list(ts),
    ensures
        readable_list(ts.subrange(0, ts.len() - 1)),
        readable(ts[ts.len() - 1]),
{
}

/// Where `a`, `, ` and `b` stand one after the other at `p` in `s`, each of
/// them stands at its own place.
proof fn lemma_split_window(s: Seq<char>, p: int, a: Seq<char>, b: Seq<char>)
    requires
        0 <= p,
        p + a.len() + 2 + b.len() <= s.len(),
        s.subrange(p, p + a.len() + 2 + b.len()) == a + seq![',', ' '] + b,
    ensures
        s.subrange(p, p + a.len()) == a,
        s[p + a.len()] == ',',
        s[p + a.len() + 1] == ' ',
        s.subrange(p + a.len() + 2, p + a.len() + 2 + b.len()) == b,
{
    let j = a + seq![',', ' '] + b;
    let e = p + j.len();
    assert(j.len() == a.len() + 2 + b.len());
    assert(s.subrange(p, p + a.len()) =~= a) by {
        assert forall|k: int| 0 <= k < a.len() implies s.subrange(p, p + a.len())[k] == a[k] by {
            assert(s.subrange(p, e)[k] == j[k]);
        }
    }
    assert(s[p + a.len()] == s.subrange(p, e)[a.len() as int]);
    assert(s[p + a.len() + 1] == s.subrange(p, e)[a.len() as int + 1]);
    assert(s.subrange(p + a.len() + 2, e) =~= b) by {
        assert forall|k: int| 0 <= k < b.len() implies s.subrange(p + a.len() + 2, e)[k] == b[k] by {
            assert(s.subrange(p, e)[a.len() + 2 + k] == j[a.len() + 2 + k]);
        }
    }
}

proof fn lemma_read_list(s: Seq<char>, p: int, ch: Seq<TermV>, ts: Seq<TermV>)
    requires
        0 <= p,
        ts.len() > 0,
        readable_list(ts),
        p + join_text(ts).len() < s.len(),
        s.len() <= usize::MAX,
        s.subrange(p, p + join_text(ts).len()) == join_text(ts),
        s[p + join_text(ts).len()] == ',' || s[p + join_text(ts).len()] == ')',
    ensures
        cons_loop(s, p, ch, Seq::empty(), false) == ({
            let (ch2, curr, saw) = after_child(ch + ts.subrange(0, ts.len() - 1), ts[ts.len() - 1]);
            cons_loop(s, p + join_text(ts).len(), ch2, curr, saw)
        }),
    decreases ts, 0int,
{
    let init = ts.subrange(0, ts.len() - 1);
    let c = ts[ts.len() - 1];
    let j = join_text(ts);
    lemma_readable_parts(ts);
    if ts.len() == 1 {
        assert(j == full_text(ts[0]));
        assert(ch + init =~= ch);
        lemma_read_child(s, p, ch, c);
    } else {
        let ji = join_text(init);
        let x = full_text(c);
        assert(j == ji + seq![',', ' '] + x);
        let q1 = p + ji.len();
        lemma_split_window(s, p, ji, x);
        lemma_read_list(s, p, ch, init);
        lemma_readable_parts(init);
        let last = init[init.len() - 1];
        let before = init.subrange(0, init.len() - 1);
        let (ch1, curr1, saw1) = after_child(ch + before, last);
        let ch2 = if !saw1 { ch1.push(var_term(curr1)) } else { ch1 };
        assert(ch2 =~= ch + init) by {
            if !saw1 {
                assert(last.children =~= Seq::<TermV>::empty());
                assert(var_term(curr1) == last);
            }
            assert(init =~= before.push(last));
        }
        assert(cons_loop(s, q1, ch1, curr1, saw1) == cons_loop(s, q1 + 1, ch2, Seq::empty(), false));
        assert(cons_loop(s, q1 + 1, ch2, Seq::empty(), false) == cons_loop(s, q1 + 2, ch2, Seq::empty(), false));
        lemma_read_child(s, q1 + 2, ch2, c);
        assert(ch2 + ts.subrange(0, 0) =~= ch2);
        assert(after_child(ch2, c) == after_child(ch + init, c));
    }
}

proof fn lemma_read_cons(s: Seq<char>, p: int, ks: Seq<TermV>)
    requires
        1 <= p,
        readable_list(ks),
        p + join_text(ks).len() < s.len(),
        s.len() <= usize::MAX,
        s[p - 1] == '(',
        s.subrange(p, p + join_text(ks).len()) == join_text(ks),
        s[p + join_text(ks).len()] == ')',
    ensures
        parse_cons_spec(s, p) == Ok::<(Seq<TermV>, int), ParseError>((ks, p + join_text(ks).len() + 1)),
    decreases ks, 1int,
{
    let e: Seq<TermV> = Seq::empty();
    if ks.len() == 0 {
        assert(join_text(ks).len() == 0);
        assert(ks =~= e);
    } else {
        lemma_read_list(s, p, e, ks);
        let init = ks.subrange(0, ks.len() - 1);
        let c = ks[ks.len() - 1];
        assert(e + init =~= init);
        assert(readable(c));
        let (ch1, curr1, saw1) = after_child(init, c);
        assert(curr1.len() > 0);
        assert(ks =~= init.push(c));
        if !saw1 {
            assert(c.children =~= Seq::<TermV>::empty());
            assert(var_term(curr1) == c);
        }
    }
}

/// Reading back the written form of a readable term gives the term.
pub proof fn law_parse_full_text(t: TermV)
    requires
        readable(t),
        full_text(t).len() <= usize::MAX,
    ensures
        start_loop(full_text(t), 0, Seq::empty()) == Ok::<TermV, ParseError>(t),
{
    let s = full_text(t);
    let name = t.value;
    assert(s.subrange(0, name.len() as int) =~= name);
    lemma_start_name(s, name, 0);
    assert(name.take(0) =~= Seq::<char>::empty());
    if t.var == 0 {
        let j = join_text(t.children);
        let p: int = name.len() as int + 1;
        assert(s == name + seq!['('] + j + seq![')']);
        assert(s[name.len() as int] == '(');
        assert(s.subrange(p, p + j.len()) =~= j);
        assert(s[p - 1] == '(');
        assert(s[p + j.len()] == ')');
        lemma_read_cons(s, p, t.children);
        assert(start_loop(s, name.len() as int, name) == Ok::<TermV, ParseError>(TermV { value: name, var: 0, children: t.children }));
    } else {
        assert(s == name);
        assert(t.children =~= Seq::<TermV>::empty());
        assert(start_loop(s, name.len() as int, name) == Ok::<TermV, ParseError>(var_term(name)));
    }
}

proof fn lemma_start_name(s: Seq<char>, name: Seq<char>, k: int)
    requires
        0 <= k <= name.len(),
        good_name(name),
        name.len() <= s.len(),
        s.subrange(0, name.len() as int) == name,
    ensures
        start_loop(s, k, name.take(k)) == start_loop(s, name.len() as int, name),
    decreases name.len() - k,
{
    if k == name.len() {
        assert(name.take(k) =~= name);
    } else {
        assert(s[k] == s.subrange(0, name.len() as int)[k]);
        assert(name_char(name[k]));
        assert(skip_spaces(s, k) == k);
        assert(name.take(k).push(s[k]) =~= name.take(k + 1));
        lemma_start_name(s, name, k + 1);
    }
}

proof fn lemma_mm_fuel(u: Seq<EqTermV>, eqs: Seq<EqTermV>, t: Seq<EqTermV>, ind: int, fuel: nat, more: nat)
    requires
        fuel <= more,
        mm_spec(u, eqs, t, ind, fuel) != Err::<Seq<EqTermV>, UnifyFailure>(UnifyFailure::OutOfFuel),
    ensures
        mm_spec(u, eqs, t, ind, more) == mm_spec(u, eqs, t, ind, fuel),
    decreases fuel,
{
    if u.len() > 0 && fuel > 0 {
        if let Ok((ind1, e1, t1)) = getcf_spec(u, eqs, t, ind) {
            if all_named(e1) {
                let e2 = clear_empty_spec(clean_spec(e1));
                lemma_mm_fuel(e2, e2, t1, ind1, (fuel - 1) as nat, (more - 1) as nat);
            }
        }
    }
}

/// More fuel never changes a unification that did not run out of it.
pub proof fn law_unify_fuel(t1: TermV, t2: TermV, fuel: nat, more: nat)
    requires
        fuel <= more,
        unify_terms_spec(t1, t2, fuel) != Err::<Seq<EqTermV>, UnifyFailure>(UnifyFailure::OutOfFuel),
    ensures
        unify_terms_spec(t1, t2, more) == unify_terms_spec(t1, t2, fuel),
{
    lemma_mm_fuel(start_eqs(t1, t2), Seq::empty(), Seq::empty(), 1, fuel, more);
}

proof fn lemma_free_list_all(a: Seq<TermV>, ts: Seq<TermV>)
    ensures
        free_of_list(a, ts) == (forall|i: int| 0 <= i < ts.len() ==> free_of(a, #[trigger] ts[i])),
    decreases ts.len(),
{
    if ts.len() > 0 {
        let pre = ts.subrange(0, ts.len() - 1);
        lemma_free_list_all(a, pre);
        if forall|i: int| 0 <= i < ts.len() ==> free_of(a, #[trigger] ts[i]) {
            assert forall|i: int| 0 <= i < pre.len() implies free_of(a, #[trigger] pre[i]) by {
                assert(pre[i] == ts[i]);
            }
        }
        if free_of_list(a, ts) {
            assert forall|i: int| 0 <= i < ts.len() implies free_of(a, #[trigger] ts[i]) by {
                if i < ts.len() - 1 {
                    assert(pre[i] == ts[i]);
                }
            }
        }
    }
}

/// Replacing the variables named in `v` by `to` keeps a term free of the
/// names `a` when `to` is free of them and either the term was, or `a` are
/// the replaced names themselves.
proof fn lemma_subst_keeps_free(a: Seq<TermV>, to: TermV, v: Seq<TermV>, w: TermV)
    requires
        free_of(a, to),
        a == v || free_of(a, w),
    ensures
        free_of(a, subst_term(to, v, w)),
    decreases w,
{
    if w.var != 1 {
        lemma_subst_list_keeps_free(a, to, v, w.children);
    }
}

proof fn lemma_subst_list_keeps_free(a: Seq<TermV>, to: TermV, v: Seq<TermV>, ws: Seq<TermV>)
    requires
        free_of(a, to),
        a == v || free_of_list(a, ws),
    ensures
        free_of_list(a, subst_list(to, v, ws)),
    decreases ws,
{
    lemma_free_list_all(a, ws);
    let out = subst_list(to, v, ws);
    assert forall|i: int| 0 <= i < out.len() implies free_of(a, #[trigger] out[i]) by {
        lemma_subst_keeps_free(a, to, v, ws[i]);
    }
    lemma_free_list_all(a, out);
}

/// Each equation's first term is free of the variables of every equation
/// at or before it: the order in which equations are solved.
pub open spec fn solved_in_order(eqs: Seq<EqTermV>) -> bool {
    &&& forall|k: int| 0 <= k < eqs.len() ==> (#[trigger] eqs[k]).terms.len() > 0
    &&& forall|a: int, b: int| 0 <= a <= b < eqs.len() ==> free_of(#[trigger] eqs[a].equal, #[trigger] eqs[b].terms[0])
}

/// No variable of equation `i` occurs in the terms of an equation before it,
/// for every equation `i` from `k` on.
pub open spec fn substituted_from(eqs: Seq<EqTermV>, k: int) -> bool {
    forall|i: int, j: int| 0 <= j < i < eqs.len() && k <= i ==> free_of_list(#[trigger] eqs[i].equal, #[trigger] eqs[j].terms)
}

proof fn lemma_sys_from_idempotent(eqs: Seq<EqTermV>, k: int)
    requires
        solved_in_order(eqs),
        substituted_from(eqs, k),
        k <= eqs.len(),
    ensures
        sys_from(eqs, k).len() == eqs.len(),
        forall|i: int| 0 <= i < eqs.len() ==> (#[trigger] sys_from(eqs, k)[i]).equal == eqs[i].equal,
        substituted_from(sys_from(eqs, k), 0),
    decreases k,
{
    if k <= 1 {
        assert forall|i: int, j: int| 0 <= j < i < eqs.len() implies free_of_list(#[trigger] eqs[i].equal, #[trigger] eqs[j].terms) by {
            assert(k <= i);
        }
    } else {
        let i0 = k - 1;
        let t0 = eqs[i0].terms[0];
        let v0 = eqs[i0].equal;
        let e2 = sys_step(eqs, i0);
        assert forall|j: int| 0 <= j < e2.len() implies (#[trigger] e2[j]).equal == eqs[j].equal
            && (e2[j].terms.len() == eqs[j].terms.len()) by {}
        assert(free_of(v0, t0));
        assert forall|a: int, b: int| 0 <= a <= b < e2.len() implies free_of(#[trigger] e2[a].equal, #[trigger] e2[b].terms[0]) by {
            if b < i0 {
                assert(free_of(eqs[a].equal, eqs[b].terms[0]));
                assert(free_of(eqs[a].equal, t0));
                lemma_subst_keeps_free(eqs[a].equal, t0, v0, eqs[b].terms[0]);
                assert(e2[b].terms[0] == subst_term(t0, v0, eqs[b].terms[0]));
            } else {
                assert(e2[b] == eqs[b]);
                assert(free_of(eqs[a].equal, eqs[b].terms[0]));
            }
        }
        assert forall|k2: int| 0 <= k2 < e2.len() implies (#[trigger] e2[k2]).terms.len() > 0 by {
            assert(eqs[k2].terms.len() > 0);
        }
        assert forall|i: int, j: int| 0 <= j < i < e2.len() && i0 <= i implies free_of_list(#[trigger] e2[i].equal, #[trigger] e2[j].terms) by {
            assert(e2[i] == eqs[i]);
            if j >= i0 {
                assert(e2[j] == eqs[j]);
            } else if i == i0 {
                lemma_subst_list_keeps_free(v0, t0, v0, eqs[j].terms);
            } else {
                assert(free_of_list(eqs[i].equal, eqs[i0].terms));
                lemma_free_list_all(eqs[i].equal, eqs[i0].terms);
                assert(free_of(eqs[i].equal, t0));
                assert(free_of_list(eqs[i].equal, eqs[j].terms));
                lemma_subst_list_keeps_free(eqs[i].equal, t0, v0, eqs[j].terms);
            }
        }
        lemma_sys_from_idempotent(e2, i0);
    }
}

/// Back substitution leaves a solved system idempotent: for equations
/// solved in order, afterwards no variable of any equation occurs in the
/// terms of an earlier equation, and every equation keeps its variables.
pub proof fn law_back_substitution_idempotent(eqs: Seq<EqTermV>)
    requires
        solved_in_order(eqs),
    ensures
        sys_from(eqs, eqs.len() as int).len() == eqs.len(),
        forall|i: int| 0 <= i < eqs.len() ==> (#[trigger] sys_from(eqs, eqs.len() as int)[i]).equal == eqs[i].equal,
        forall|i: int, j: int| 0 <= j < i < eqs.len() ==>
            free_of_list(#[trigger] sys_from(eqs, eqs.len() as int)[i].equal, #[trigger] sys_from(eqs, eqs.len() as int)[j].terms),
{
    lemma_sys_from_idempotent(eqs, eqs.len() as int);
}

proof fn lemma_sys_from_keeps(eqs: Seq<EqTermV>, k: int, j: int)
    requires
        0 <= j < eqs.len(),
        k <= eqs.len(),
        forall|i: int| j < i < k ==> free_of_list(#[trigger] eqs[i].equal, eqs[j].terms),
    ensures
        sys_from(eqs, k)[j] == eqs[j],
        sys_from(eqs, k).len() == eqs.len(),
    decreases k,
{
    if k > 1 {
        let i0 = k - 1;
        let e2 = sys_step(eqs, i0);
        if j < i0 {
            assert(free_of_list(eqs[i0].equal, eqs[j].terms));
            law_subst_free_list(eqs[i0].terms[0], eqs[i0].equal, eqs[j].terms);
        }
        assert(e2[j] == eqs[j]);
        assert forall|i: int| j < i < i0 implies free_of_list(#[trigger] e2[i].equal, e2[j].terms) by {
            assert(e2[i].equal == eqs[i].equal);
        }
        lemma_sys_from_keeps(e2, i0, j);
    }
}

/// Back substitution changes an equation only through the variables of the
/// equations after it: an equation whose terms mention no variable of a
/// later equation (the last one, for instance) is left as it was.
pub proof fn law_back_substitution_keeps(eqs: Seq<EqTermV>, j: int)
    requires
        0 <= j < eqs.len(),
        forall|i: int| j < i < eqs.len() ==> free_of_list(#[trigger] eqs[i].equal, eqs[j].terms),
    ensures
        sys_from(eqs, eqs.len() as int)[j] == eqs[j],
{
    lemma_sys_from_keeps(eqs, eqs.len() as int, j);
}

} // verus!
