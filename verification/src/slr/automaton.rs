//! The LR(0) automaton: states are sets of items (rules with a dot), and a
//! transition reads the symbol that follows the dot.
use vstd::prelude::*;
use vstd::utf8::is_ascii_chars;
use crate::slr::grammar::{
    BodyV, Rule, RuleV, Rule_body, bodies_view, clone_rules, close_from, filter_rules_spec,
    formalize_roots_spec, lemma_close_from, rules_view, same_roots_spec, strs_view,
    append_rule_spec, head_index, is_symbol_char, scan_bodies, parse_line, LineParse, parse_rules_spec,
    lines_readable, fresh_bodies, clone_strs, inside, same_roots, filter_rules, formalize_roots, lemma_head_index, merge_bodies, add_root, printable_rule, printable_body,
};
use crate::slr::checks::states_printable;
use crate::slr::conflicts::states_nonempty;
use crate::text::{char_at, char_len, char_string, empty_string, push_char, push_str, substring};

verus! {

/// From position `i` on, `p` is a sequence of symbols followed by the end
/// marker `$` as its last character. A symbol is a nonterminal `[name]`
/// (the name holds no `]`) or one character other than `[`, `]` and `$`.
pub open spec fn word_from(p: Seq<char>, i: int) -> bool
    decreases p.len() - i,
{
    if i < 0 || i >= p.len() {
        false
    } else if i == p.len() - 1 {
        p[i] == '$'
    } else if p[i] == '$' || p[i] == ']' {
        false
    } else if p[i] == '[' {
        let c = close_from(p, i + 1);
        c > i && c < p.len() - 1 && word_from(p, c + 1)
    } else {
        word_from(p, i + 1)
    }
}

/// An item's text after the dot: `.`, symbols, `$`, all ASCII.
pub open spec fn wf_post(p: Seq<char>) -> bool {
    p.len() >= 2 && p[0] == '.' && word_from(p, 1) && is_ascii_chars(p)
}

/// Every alternative of every rule is a well-formed item.
pub open spec fn wf_rules(rs: Seq<RuleV>) -> bool {
    forall|i: int, k: int|
        0 <= i < rs.len() && 0 <= k < rs[i].bodies.len() ==> wf_post(#[trigger] rs[i].bodies[k].post)
}

/// The symbol after the dot (only meaningful when it is not `$`): the name of
/// a nonterminal, or a one-character terminal.
pub open spec fn next_symbol(p: Seq<char>) -> Seq<char> {
    if p[1] == '[' {
        p.subrange(2, close_from(p, 2))
    } else {
        seq![p[1]]
    }
}

/// The item with its dot moved over the next symbol.
pub open spec fn shift_body(b: BodyV) -> BodyV {
    let p = b.post;
    if p[1] == '[' {
        let ii = close_from(p, 0) + 1;
        BodyV { pre: b.pre + p.subrange(1, ii), post: seq!['.'] + p.subrange(ii, p.len() as int) }
    } else {
        BodyV { pre: b.pre.push(p[1]), post: seq!['.'] + p.subrange(2, p.len() as int) }
    }
}

pub proof fn lemma_close_from_offset(p: Seq<char>, q: Seq<char>, i: int, d: int)
    requires
        0 <= i,
        0 <= i + d,
        q.len() == p.len() + d,
        forall|k: int| i <= k < p.len() ==> q[k + d] == p[k],
    ensures
        close_from(q, i + d) == close_from(p, i) + d,
    decreases p.len() - i,
{
    if i < p.len() && p[i] != ']' {
        lemma_close_from_offset(p, q, i + 1, d);
    }
}

pub proof fn lemma_word_from_offset(p: Seq<char>, q: Seq<char>, i: int, d: int)
    requires
        0 <= i,
        0 <= i + d,
        q.len() == p.len() + d,
        forall|k: int| i <= k < p.len() ==> q[k + d] == p[k],
    ensures
        word_from(q, i + d) == word_from(p, i),
    decreases p.len() - i,
{
    if i < p.len() - 1 && p[i] != '$' && p[i] != ']' {
        if p[i] == '[' {
            lemma_close_from_offset(p, q, i + 1, d);
            lemma_close_from(p, i + 1);
            let c = close_from(p, i + 1);
            if c > i && c < p.len() - 1 {
                lemma_word_from_offset(p, q, c + 1, d);
            }
        } else {
            lemma_word_from_offset(p, q, i + 1, d);
        }
    }
}

/// Facts about a well-formed item whose next symbol is not `$`.
proof fn lemma_wf_post_symbol(p: Seq<char>)
    requires
        wf_post(p),
        p[1] != '$',
    ensures
        p.len() > 2,
        p[1] == '[' ==> 2 <= close_from(p, 2) < p.len() - 1,
        p[1] == '[' ==> close_from(p, 0) == close_from(p, 2),
        p[1] == '[' ==> forall|k: int| 2 <= k < close_from(p, 2) ==> p[k] != ']',
        wf_post(shift_body(BodyV { pre: Seq::empty(), post: p }).post),
{
    lemma_close_from(p, 2);
    if p[1] == '[' {
        assert(close_from(p, 0) == close_from(p, 1));
        assert(close_from(p, 1) == close_from(p, 2));
        let c = close_from(p, 2);
        let q = seq!['.'] + p.subrange(c + 1, p.len() as int);
        lemma_word_from_offset(p, q, c + 1, -c);
    } else {
        let q = seq!['.'] + p.subrange(2, p.len() as int);
        lemma_word_from_offset(p, q, 2, -1);
    }
}

proof fn lemma_shift_post(b: BodyV)
    requires
        wf_post(b.post),
        b.post[1] != '$',
    ensures
        wf_post(shift_body(b).post),
{
    lemma_wf_post_symbol(b.post);
    assert(shift_body(b).post == shift_body(BodyV { pre: Seq::empty(), post: b.post }).post);
}

/// The symbol after the dot of a well-formed item whose next symbol is not
/// `$`.
fn read_symbol(post: &String) -> (res: String)
    requires
        wf_post(post@),
        post@[1] != '$',
    ensures
        res@ == next_symbol(post@),
{
    proof {
        lemma_wf_post_symbol(post@);
    }
    let mut term = empty_string();
    let n = char_len(post);
    if char_at(post, 1) == '[' {
        let mut ii: usize = 2;
        let ghost p = post@;
        let ghost c = close_from(p, 2);
        proof {
            lemma_close_from(p, 2);
        }
        while char_at(post, ii) != ']'
            invariant
                p == post@,
                n == p.len(),
                2 <= ii <= c,
                c < p.len() - 1,
                forall|k: int| 2 <= k < c ==> p[k] != ']',
                p[c] == ']',
                term@ == p.subrange(2, ii as int),
            decreases c - ii,
        {
            push_char(&mut term, char_at(post, ii));
            assert(p.subrange(2, ii + 1) =~= p.subrange(2, ii as int).push(p[ii as int]));
            ii += 1;
        }
        term
    } else {
        push_char(&mut term, char_at(post, 1));
        assert(term@ =~= seq![post@[1]]);
        term
    }
}

/// The item with its dot moved over the next symbol.
fn shift(b: &Rule_body) -> (res: Rule_body)
    requires
        wf_post(b@.post),
        b@.post[1] != '$',
    ensures
        res@ == shift_body(b@),
        wf_post(res@.post),
{
    proof {
        lemma_wf_post_symbol(b@.post);
        lemma_shift_post(b@);
    }
    let n = char_len(&b.post);
    let ghost p = b@.post;
    if char_at(&b.post, 1) == '[' {
        let mut ii: usize = 1;
        proof {
            lemma_close_from(p, 0);
            assert(p[0] != ']');
            assert(p[1] != ']');
        }
        let ghost c = close_from(p, 0);
        while char_at(&b.post, ii - 1) != ']'
            invariant
                p == b@.post,
                n == p.len(),
                1 <= ii <= c + 1,
                c < p.len() - 1,
                forall|k: int| 0 <= k < c ==> p[k] != ']',
                p[c] == ']',
            decreases c + 1 - ii,
        {
            ii += 1;
        }
        let mut pre = b.pre.clone();
        let moved = substring(&b.post, 1, ii);
        push_str(&mut pre, &moved);
        let mut post = char_string('.');
        let rest = substring(&b.post, ii, n);
        push_str(&mut post, &rest);
        let res = Rule_body { pre, post };
        assert(res@ =~= shift_body(b@));
        res
    } else {
        let mut pre = b.pre.clone();
        push_char(&mut pre, char_at(&b.post, 1));
        let mut post = char_string('.');
        let rest = substring(&b.post, 2, n);
        push_str(&mut post, &rest);
        let res = Rule_body { pre, post };
        assert(res@ =~= shift_body(b@));
        res
    }
}


/// A state of the automaton: its kernel items `roots` and all its items
/// `rules` (kernel first, then the closure).
pub struct State {
    pub id: i32,
    pub roots: Vec<Rule>,
    pub rules: Vec<Rule>,
}

/// A transition from state `fr` to state `to` reading symbol `value`.
pub struct Shift {
    pub value: String,
    pub fr: i32,
    pub to: i32,
}

#[verifier::ext_equal]
pub struct StateV {
    pub id: i32,
    pub roots: Seq<RuleV>,
    pub rules: Seq<RuleV>,
}

#[verifier::ext_equal]
pub struct ShiftV {
    pub value: Seq<char>,
    pub fr: i32,
    pub to: i32,
}

impl View for State {
    type V = StateV;

    open spec fn view(&self) -> StateV {
        StateV { id: self.id, roots: rules_view(self.roots@), rules: rules_view(self.rules@) }
    }
}

impl View for Shift {
    type V = ShiftV;

    open spec fn view(&self) -> ShiftV {
        ShiftV { value: self.value@, fr: self.fr, to: self.to }
    }
}

pub open spec fn states_view(ss: Seq<State>) -> Seq<StateV> {
    ss.map_values(|s: State| s@)
}

pub open spec fn shifts_view(ss: Seq<Shift>) -> Seq<ShiftV> {
    ss.map_values(|s: Shift| s@)
}

impl Clone for State {
    fn clone(&self) -> (res: Self)
        ensures
            res@ == self@,
    {
        State { id: self.id, roots: clone_rules(&self.roots), rules: clone_rules(&self.rules) }
    }
}

impl Clone for Shift {
    fn clone(&self) -> (res: Self)
        ensures
            res@ == self@,
    {
        Shift { value: self.value.clone(), fr: self.fr, to: self.to }
    }
}

/// Adds the symbol after the dot of `p` to the exits, unless it is the end
/// marker or already there.
pub open spec fn add_exit(ex: Seq<Seq<char>>, p: Seq<char>) -> Seq<Seq<char>> {
    if p[1] != '$' {
        let t = next_symbol(p);
        if ex.contains(t) {
            ex
        } else {
            ex.push(t)
        }
    } else {
        ex
    }
}

pub open spec fn exits_of_bodies(ex: Seq<Seq<char>>, bs: Seq<BodyV>) -> Seq<Seq<char>>
    decreases bs.len(),
{
    if bs.len() == 0 {
        ex
    } else {
        add_exit(exits_of_bodies(ex, bs.drop_last()), bs.last().post)
    }
}

/// The symbols read after the dots of the items of `rs`, each once, in order
/// of first occurrence, after those of `ex`.
pub open spec fn exits_of_rules(ex: Seq<Seq<char>>, rs: Seq<RuleV>) -> Seq<Seq<char>>
    decreases rs.len(),
{
    if rs.len() == 0 {
        ex
    } else {
        exits_of_bodies(exits_of_rules(ex, rs.drop_last()), rs.last().bodies)
    }
}

/// The symbol after the dot of each item of `rs` (with repetitions).
pub open spec fn all_syms(rs: Seq<RuleV>) -> Seq<Seq<char>>
    decreases rs.len(),
{
    if rs.len() == 0 {
        Seq::empty()
    } else {
        all_syms(rs.drop_last()) + body_syms(rs.last().bodies)
    }
}

pub open spec fn body_syms(bs: Seq<BodyV>) -> Seq<Seq<char>> {
    bs.map_values(|b: BodyV| next_symbol(b.post))
}

/// The first symbol after a dot, among the alternatives from `k` on, that is
/// not yet an exit.
pub open spec fn first_new_exit(bs: Seq<BodyV>, ex: Seq<Seq<char>>, k: int) -> Option<Seq<char>>
    decreases bs.len() - k,
{
    if k < 0 || k >= bs.len() {
        None
    } else if bs[k].post[1] != '$' && !ex.contains(next_symbol(bs[k].post)) {
        Some(next_symbol(bs[k].post))
    } else {
        first_new_exit(bs, ex, k + 1)
    }
}

/// The closure of a state: the rules of the grammar whose head can be read
/// from the state, scanning the grammar again from its start whenever a new
/// symbol to read appears. Returns the symbols to read and the added rules.
pub open spec fn closure(rules: Seq<RuleV>, bound: int, ex: Seq<Seq<char>>, sr: Seq<RuleV>, j: int) -> (Seq<Seq<char>>, Seq<RuleV>)
    decreases bound - ex.len(), rules.len() - j,
{
    if j < 0 || j >= rules.len() {
        (ex, sr)
    } else if !ex.contains(rules[j].head) {
        closure(rules, bound, ex, sr, j + 1)
    } else {
        match first_new_exit(rules[j].bodies, ex, 0) {
            None => closure(rules, bound, ex, sr.push(rules[j]), j + 1),
            Some(t) => if ex.len() < bound {
                closure(rules, bound, ex.push(t), Seq::empty(), 0)
            } else {
                (ex, sr)
            },
        }
    }
}

/// A bound on the number of symbols a state can read.
pub open spec fn lr_bound(rules: Seq<RuleV>, roots: Seq<RuleV>) -> int {
    (exits_of_rules(Seq::empty(), roots).len() + all_syms(rules).len()) as int
}

pub open spec fn goto_bodies(acc: Seq<RuleV>, head: Seq<char>, bs: Seq<BodyV>, x: Seq<char>) -> Seq<RuleV>
    decreases bs.len(),
{
    if bs.len() == 0 {
        acc
    } else {
        let a = goto_bodies(acc, head, bs.drop_last(), x);
        let b = bs.last();
        if b.post[1] != '$' && next_symbol(b.post) == x {
            a.push(RuleV { head, bodies: seq![shift_body(b)] })
        } else {
            a
        }
    }
}

/// The items of `rs` that read `x`, with the dot moved over it, one rule per
/// item.
pub open spec fn goto_rules(acc: Seq<RuleV>, rs: Seq<RuleV>, x: Seq<char>) -> Seq<RuleV>
    decreases rs.len(),
{
    if rs.len() == 0 {
        acc
    } else {
        let r = rs.last();
        goto_bodies(goto_rules(acc, rs.drop_last(), x), r.head, r.bodies, x)
    }
}

/// The first state at or after `i` whose kernel prints as `roots`
/// (`states.len()` when none).
pub open spec fn find_state(states: Seq<StateV>, roots: Seq<RuleV>, i: int) -> int
    decreases states.len() - i,
{
    if i < 0 || i >= states.len() {
        states.len() as int
    } else if same_roots_spec(roots, states[i].roots) {
        i
    } else {
        find_state(states, roots, i + 1)
    }
}

/// The automaton grown from a state with kernel `roots`: the state gets
/// number `id`, then every symbol it reads leads either to an existing state
/// with the same kernel or to a new state built the same way. Numbers at or
/// above `max_id` are not given out (`None`).
pub open spec fn build_lr(rules: Seq<RuleV>, roots: Seq<RuleV>, states: Seq<StateV>, shifts: Seq<ShiftV>, id: i32, max_id: i32) -> Option<(Seq<StateV>, Seq<ShiftV>, i32)>
    decreases max_id - id, 1int, 0int,
{
    if id >= max_id {
        None
    } else {
        let ex0 = exits_of_rules(Seq::empty(), roots);
        let (exits, sr) = closure(rules, lr_bound(rules, roots), ex0, Seq::empty(), 0);
        let st_rules = roots + sr;
        build_lr_exits(rules, st_rules, exits, id, states.push(StateV { id, roots, rules: st_rules }), shifts, (id + 1) as i32, max_id, 0)
    }
}

/// The transitions of state `from`, whose items are `sr`, for the symbols
/// `exits` from the `i`-th on.
pub open spec fn build_lr_exits(rules: Seq<RuleV>, sr: Seq<RuleV>, exits: Seq<Seq<char>>, from: i32, states: Seq<StateV>, shifts: Seq<ShiftV>, id: i32, max_id: i32, i: int) -> Option<(Seq<StateV>, Seq<ShiftV>, i32)>
    decreases max_id - id + 1, 0int, exits.len() - i,
{
    if id > max_id || i < 0 || i >= exits.len() {
        Some((states, shifts, id))
    } else {
        let nr = filter_rules_spec(goto_rules(Seq::empty(), sr, exits[i]));
        let f = find_state(states, nr, 0);
        if f < states.len() {
            build_lr_exits(rules, sr, exits, from, states, shifts.push(ShiftV { value: exits[i], fr: from, to: states[f].id }), id, max_id, i + 1)
        } else {
            let shifts2 = shifts.push(ShiftV { value: exits[i], fr: from, to: id });
            match build_lr(rules, formalize_roots_spec(nr), states, shifts2, id, max_id) {
                None => None,
                Some((st, sh, id2)) => if id2 < id || id2 > max_id {
                    None
                } else {
                    build_lr_exits(rules, sr, exits, from, st, sh, id2, max_id, i + 1)
                },
            }
        }
    }
}


proof fn lemma_exits_of_bodies(ex: Seq<Seq<char>>, bs: Seq<BodyV>)
    requires
        ex.no_duplicates(),
    ensures
        exits_of_bodies(ex, bs).no_duplicates(),
        exits_of_bodies(ex, bs).len() >= ex.len(),
        forall|i: int| 0 <= i < ex.len() ==> exits_of_bodies(ex, bs)[i] == ex[i],
    decreases bs.len(),
{
    if bs.len() > 0 {
        lemma_exits_of_bodies(ex, bs.drop_last());
    }
}

proof fn lemma_exits_of_rules(ex: Seq<Seq<char>>, rs: Seq<RuleV>)
    requires
        ex.no_duplicates(),
    ensures
        exits_of_rules(ex, rs).no_duplicates(),
    decreases rs.len(),
{
    if rs.len() > 0 {
        lemma_exits_of_rules(ex, rs.drop_last());
        lemma_exits_of_bodies(exits_of_rules(ex, rs.drop_last()), rs.last().bodies);
    }
}

proof fn lemma_all_syms_contains(rs: Seq<RuleV>, j: int, k: int)
    requires
        0 <= j < rs.len(),
        0 <= k < rs[j].bodies.len(),
    ensures
        all_syms(rs).contains(next_symbol(rs[j].bodies[k].post)),
    decreases rs.len(),
{
    let t = next_symbol(rs[j].bodies[k].post);
    if j == rs.len() - 1 {
        let b = body_syms(rs.last().bodies);
        assert(b[k] == t);
        assert((all_syms(rs.drop_last()) + b)[all_syms(rs.drop_last()).len() + k] == t);
    } else {
        lemma_all_syms_contains(rs.drop_last(), j, k);
        let w = choose|w: int| 0 <= w < all_syms(rs.drop_last()).len() && all_syms(rs.drop_last())[w] == t;
        assert(all_syms(rs)[w] == t);
    }
}

proof fn lemma_first_new_exit(bs: Seq<BodyV>, ex: Seq<Seq<char>>, k: int)
    requires
        0 <= k,
    ensures
        first_new_exit(bs, ex, k) matches Some(t) ==> !ex.contains(t) && exists|kk: int|
            k <= kk < bs.len() && bs[kk].post[1] != '$' && t == next_symbol(#[trigger] bs[kk].post),
    decreases bs.len() - k,
{
    if k < bs.len() && !(bs[k].post[1] != '$' && !ex.contains(next_symbol(bs[k].post))) {
        lemma_first_new_exit(bs, ex, k + 1);
    }
}

proof fn lemma_len_bound(ex: Seq<Seq<char>>, u: Seq<Seq<char>>)
    requires
        ex.no_duplicates(),
        forall|x: Seq<char>| ex.contains(x) ==> u.contains(x),
    ensures
        ex.len() <= u.len(),
{
    ex.unique_seq_to_set();
    u.lemma_cardinality_of_set();
    assert(ex.to_set().subset_of(u.to_set()));
    vstd::set_lib::lemma_len_subset(ex.to_set(), u.to_set());
}

/// Some item of `bs` reads `x` next.
pub open spec fn body_reads(bs: Seq<BodyV>, x: Seq<char>) -> bool {
    exists|k: int| #![trigger bs[k]] 0 <= k < bs.len() && bs[k].post[1] != '$' && next_symbol(bs[k].post) == x
}

/// Some item of `rs` reads `x` next.
pub open spec fn rules_read(rs: Seq<RuleV>, x: Seq<char>) -> bool {
    exists|i: int| #![trigger rs[i]] 0 <= i < rs.len() && body_reads(rs[i].bodies, x)
}

proof fn lemma_exits_of_bodies_read(ex: Seq<Seq<char>>, bs: Seq<BodyV>)
    ensures
        forall|x: Seq<char>| #[trigger] exits_of_bodies(ex, bs).contains(x) ==> ex.contains(x) || body_reads(bs, x),
    decreases bs.len(),
{
    if bs.len() > 0 {
        let init = bs.drop_last();
        lemma_exits_of_bodies_read(ex, init);
        let prev = exits_of_bodies(ex, init);
        assert forall|x: Seq<char>| #[trigger] exits_of_bodies(ex, bs).contains(x) implies ex.contains(x) || body_reads(bs, x) by {
            if prev.contains(x) {
                if !ex.contains(x) {
                    let k = choose|k: int| #![trigger init[k]] 0 <= k < init.len() && init[k].post[1] != '$' && next_symbol(init[k].post) == x;
                    assert(bs[k] == init[k]);
                }
            } else {
                let p = bs.last().post;
                assert(p[1] != '$' && next_symbol(p) == x);
                assert(bs[bs.len() - 1] == bs.last());
            }
        }
    }
}

proof fn lemma_exits_of_rules_read(ex: Seq<Seq<char>>, rs: Seq<RuleV>)
    ensures
        forall|x: Seq<char>| #[trigger] exits_of_rules(ex, rs).contains(x) ==> ex.contains(x) || rules_read(rs, x),
    decreases rs.len(),
{
    if rs.len() > 0 {
        let init = rs.drop_last();
        lemma_exits_of_rules_read(ex, init);
        lemma_exits_of_bodies_read(exits_of_rules(ex, init), rs.last().bodies);
        assert forall|x: Seq<char>| #[trigger] exits_of_rules(ex, rs).contains(x) implies ex.contains(x) || rules_read(rs, x) by {
            if exits_of_rules(ex, init).contains(x) {
                if !ex.contains(x) {
                    let i = choose|i: int| #![trigger init[i]] 0 <= i < init.len() && body_reads(init[i].bodies, x);
                    assert(rs[i] == init[i]);
                }
            } else {
                assert(rs[rs.len() - 1] == rs.last());
            }
        }
    }
}

/// Every symbol of the closure is read by some item of the state: by a
/// kernel item, or by a rule whose head the state reads, which the closure
/// then holds.
proof fn lemma_closure_reads(rules: Seq<RuleV>, bound: int, u: Seq<Seq<char>>, roots: Seq<RuleV>, ex: Seq<Seq<char>>, sr: Seq<RuleV>, j: int)
    requires
        0 <= j,
        bound == u.len(),
        ex.no_duplicates(),
        forall|x: Seq<char>| ex.contains(x) ==> u.contains(x),
        forall|x: Seq<char>| all_syms(rules).contains(x) ==> u.contains(x),
        forall|x: Seq<char>| #[trigger] ex.contains(x) ==> rules_read(roots, x) || exists|m: int| #![trigger rules[m]]
            0 <= m < rules.len() && ex.contains(rules[m].head) && body_reads(rules[m].bodies, x),
        forall|m: int| #![trigger rules[m]] 0 <= m < j && m < rules.len() && ex.contains(rules[m].head) ==> sr.contains(rules[m]),
    ensures
        forall|x: Seq<char>| #[trigger] closure(rules, bound, ex, sr, j).0.contains(x) ==> rules_read(roots + closure(rules, bound, ex, sr, j).1, x),
    decreases bound - ex.len(), rules.len() - j,
{
    if j >= rules.len() {
        let all = roots + sr;
        assert(closure(rules, bound, ex, sr, j) == (ex, sr));
        assert forall|x: Seq<char>| #[trigger] ex.contains(x) implies rules_read(all, x) by {
            if rules_read(roots, x) {
                let i = choose|i: int| #![trigger roots[i]] 0 <= i < roots.len() && body_reads(roots[i].bodies, x);
                assert(all[i] == roots[i]);
            } else {
                let m = choose|m: int| #![trigger rules[m]] 0 <= m < rules.len() && ex.contains(rules[m].head) && body_reads(rules[m].bodies, x);
                assert(sr.contains(rules[m]));
                let p = choose|p: int| 0 <= p < sr.len() && sr[p] == rules[m];
                assert(all[roots.len() + p] == sr[p]);
            }
        }
    } else if !ex.contains(rules[j].head) {
        assert forall|m: int| #![trigger rules[m]] 0 <= m < j + 1 && m < rules.len() && ex.contains(rules[m].head) implies sr.contains(rules[m]) by {
            if m < j {
            }
        }
        assert(closure(rules, bound, ex, sr, j) == closure(rules, bound, ex, sr, j + 1));
        lemma_closure_reads(rules, bound, u, roots, ex, sr, j + 1);
    } else {
        lemma_first_new_exit(rules[j].bodies, ex, 0);
        match first_new_exit(rules[j].bodies, ex, 0) {
            None => {
                let sr2 = sr.push(rules[j]);
                assert forall|m: int| #![trigger rules[m]] 0 <= m < j + 1 && m < rules.len() && ex.contains(rules[m].head) implies sr2.contains(rules[m]) by {
                    if m < j {
                        let p = choose|p: int| 0 <= p < sr.len() && sr[p] == rules[m];
                        assert(sr2[p] == sr[p]);
                    } else {
                        assert(sr2[sr.len() as int] == rules[j]);
                    }
                }
                assert(closure(rules, bound, ex, sr, j) == closure(rules, bound, ex, sr2, j + 1));
                lemma_closure_reads(rules, bound, u, roots, ex, sr2, j + 1);
            },
            Some(t) => {
                let kk = choose|kk: int| 0 <= kk < rules[j].bodies.len() && rules[j].bodies[kk].post[1] != '$'
                    && t == next_symbol(#[trigger] rules[j].bodies[kk].post);
                lemma_all_syms_contains(rules, j, kk);
                let ex2 = ex.push(t);
                assert forall|x: Seq<char>| ex2.contains(x) implies u.contains(x) by {
                    if x != t {
                        assert(ex.contains(x));
                    }
                }
                lemma_len_bound(ex2, u);
                assert(body_reads(rules[j].bodies, t));
                assert forall|x: Seq<char>| #[trigger] ex2.contains(x) implies rules_read(roots, x) || exists|m: int| #![trigger rules[m]]
                    0 <= m < rules.len() && ex2.contains(rules[m].head) && body_reads(rules[m].bodies, x) by {
                    if x == t {
                        lemma_push_keeps(ex, t, rules[j].head);
                    } else {
                        assert(ex.contains(x));
                        if !rules_read(roots, x) {
                            let m = choose|m: int| #![trigger rules[m]] 0 <= m < rules.len() && ex.contains(rules[m].head) && body_reads(rules[m].bodies, x);
                            lemma_push_keeps(ex, t, rules[m].head);
                        }
                    }
                }
                assert(ex.len() < bound);
                assert(closure(rules, bound, ex, sr, j) == closure(rules, bound, ex2, Seq::empty(), 0));
                lemma_closure_reads(rules, bound, u, roots, ex2, Seq::empty(), 0);
            },
        }
    }
}

proof fn lemma_push_keeps(s: Seq<Seq<char>>, t: Seq<char>, x: Seq<char>)
    requires
        s.contains(x),
    ensures
        s.push(t).contains(x),
{
    let w = choose|w: int| 0 <= w < s.len() && s[w] == x;
    assert(s.push(t)[w] == x);
}

proof fn lemma_goto_bodies_len(acc: Seq<RuleV>, head: Seq<char>, bs: Seq<BodyV>, x: Seq<char>)
    ensures
        goto_bodies(acc, head, bs, x).len() >= acc.len(),
        body_reads(bs, x) ==> goto_bodies(acc, head, bs, x).len() > acc.len(),
    decreases bs.len(),
{
    if bs.len() > 0 {
        let init = bs.drop_last();
        lemma_goto_bodies_len(acc, head, init, x);
        if body_reads(bs, x) && !body_reads(init, x) {
            let k = choose|k: int| #![trigger bs[k]] 0 <= k < bs.len() && bs[k].post[1] != '$' && next_symbol(bs[k].post) == x;
            if k < init.len() {
                assert(init[k] == bs[k]);
            }
        }
    }
}

proof fn lemma_goto_rules_len(acc: Seq<RuleV>, rs: Seq<RuleV>, x: Seq<char>)
    ensures
        goto_rules(acc, rs, x).len() >= acc.len(),
        rules_read(rs, x) ==> goto_rules(acc, rs, x).len() > acc.len(),
    decreases rs.len(),
{
    if rs.len() > 0 {
        let init = rs.drop_last();
        lemma_goto_rules_len(acc, init, x);
        lemma_goto_bodies_len(goto_rules(acc, init, x), rs.last().head, rs.last().bodies, x);
        if rules_read(rs, x) && !rules_read(init, x) {
            let i = choose|i: int| #![trigger rs[i]] 0 <= i < rs.len() && body_reads(rs[i].bodies, x);
            if i < init.len() {
                assert(init[i] == rs[i]);
            }
        }
    }
}

proof fn lemma_filter_rules_nonempty(rs: Seq<RuleV>)
    requires
        rs.len() > 0,
    ensures
        filter_rules_spec(rs).len() > 0,
{
    let acc = filter_rules_spec(rs.drop_last());
    assert(filter_rules_spec(rs) == append_rule_spec(acc, rs.last().head, rs.last().bodies));
    lemma_head_index(acc, rs.last().head);
}

proof fn lemma_formalize_roots_nonempty(rs: Seq<RuleV>)
    requires
        rs.len() > 0,
    ensures
        formalize_roots_spec(rs).len() > 0,
{
    let acc = formalize_roots_spec(rs.drop_last());
    assert(formalize_roots_spec(rs) == add_root(acc, rs.last()));
    lemma_head_index(acc, rs.last().head);
}

proof fn lemma_word_ends(p: Seq<char>, i: int)
    requires
        word_from(p, i),
    ensures
        p.len() > 0,
        p.last() == '$',
    decreases p.len() - i,
{
    if i < p.len() - 1 {
        if p[i] == '[' {
            lemma_word_ends(p, close_from(p, i + 1) + 1);
        } else {
            lemma_word_ends(p, i + 1);
        }
    }
}

proof fn lemma_wf_printable(rs: Seq<RuleV>)
    requires
        wf_rules(rs),
    ensures
        forall|i: int| 0 <= i < rs.len() ==> printable_rule(#[trigger] rs[i]),
{
    assert forall|i: int| 0 <= i < rs.len() implies printable_rule(#[trigger] rs[i]) by {
        assert forall|k: int| 0 <= k < rs[i].bodies.len() implies printable_body(#[trigger] rs[i].bodies[k]) by {
            assert(wf_post(rs[i].bodies[k].post));
            lemma_word_ends(rs[i].bodies[k].post, 1);
        }
    }
}

proof fn lemma_append_rule_wf(rs: Seq<RuleV>, h: Seq<char>, bs: Seq<BodyV>)
    requires
        wf_rules(rs),
        forall|k: int| 0 <= k < bs.len() ==> wf_post(#[trigger] bs[k].post),
    ensures
        wf_rules(append_rule_spec(rs, h, bs)),
{
    let out = append_rule_spec(rs, h, bs);
    lemma_head_index(rs, h);
    let hi = head_index(rs, h) as int;
    assert forall|i: int, k: int| 0 <= i < out.len() && 0 <= k < out[i].bodies.len() implies wf_post(#[trigger] out[i].bodies[k].post) by {
        if i == hi && hi < rs.len() {
            if k < rs[hi].bodies.len() {
                assert(out[i].bodies[k] == rs[hi].bodies[k]);
            } else {
                assert(out[i].bodies[k] == bs[k - rs[hi].bodies.len()]);
            }
        } else if i < rs.len() {
            assert(out[i] == rs[i]);
        } else {
            assert(out[i].bodies == bs);
        }
    }
}

/// An alternative as it is written: the dot, the symbols, the end marker.
pub open spec fn marked(b: Seq<char>) -> Seq<char> {
    seq!['.'] + b + seq!['$']
}

/// One symbol as the grammar text writes it: a letter or digit, or a
/// bracketed name without `]`.
pub open spec fn is_atom(a: Seq<char>) -> bool {
    ||| a.len() == 1 && is_symbol_char(a[0])
    ||| a.len() >= 2 && a[0] == '[' && a[a.len() - 1] == ']'
        && forall|j: int| 1 <= j < a.len() - 1 ==> #[trigger] a[j] != ']'
}

/// A text of symbols, all ASCII, which makes a well-formed item.
pub open spec fn good_body(b: Seq<char>) -> bool {
    word_from(marked(b), 1) && is_ascii_chars(b)
}

proof fn lemma_close_at(s: Seq<char>, i: int, c: int)
    requires
        0 <= i <= c < s.len(),
        s[c] == ']',
        forall|j: int| i <= j < c ==> s[j] != ']',
    ensures
        close_from(s, i) == c,
    decreases c - i,
{
    if i < c {
        lemma_close_at(s, i + 1, c);
    }
}

proof fn lemma_close_agree(s: Seq<char>, t: Seq<char>, i: int)
    requires
        0 <= i <= close_from(s, i) < s.len(),
        close_from(s, i) < t.len(),
        forall|j: int| i <= j <= close_from(s, i) ==> s[j] == t[j],
    ensures
        close_from(t, i) == close_from(s, i),
{
    lemma_close_from(s, i);
    let c = close_from(s, i);
    assert forall|j: int| i <= j < c implies t[j] != ']' by {
        assert(s[j] == t[j]);
    }
    lemma_close_at(t, i, c);
}

proof fn lemma_word_extend(b: Seq<char>, a: Seq<char>, i: int)
    requires
        is_atom(a),
        1 <= i <= b.len() + 1,
        word_from(marked(b), i),
    ensures
        word_from(marked(b + a), i),
    decreases b.len() + 1 - i,
{
    let q = marked(b);
    let q2 = marked(b + a);
    assert(q.len() == b.len() + 2);
    assert(q2.len() == b.len() + a.len() + 2);
    assert forall|j: int| 0 <= j < b.len() + 1 implies #[trigger] q[j] == q2[j] by {
        if j > 0 {
            assert(q[j] == b[j - 1]);
            assert(q2[j] == (b + a)[j - 1]);
        }
    }
    if i == b.len() + 1 {
        assert(q2[i] == a[0]);
        assert(q2[q2.len() - 1] == '$');
        if a.len() == 1 {
            assert(word_from(q2, i + 1));
        } else {
            let c: int = b.len() as int + a.len() as int;
            assert forall|j: int| i + 1 <= j < c implies q2[j] != ']' by {
                assert(q2[j] == a[j - i]);
            }
            assert(q2[c] == a[a.len() - 1]);
            lemma_close_at(q2, i + 1, c);
            assert(word_from(q2, c + 1));
        }
    } else {
        assert(q[i] == q2[i]);
        if q[i] == '[' {
            let c = close_from(q, i + 1);
            lemma_close_from(q, i + 1);
            assert forall|j: int| i + 1 <= j <= c implies q[j] == q2[j] by {}
            lemma_close_agree(q, q2, i + 1);
            lemma_word_extend(b, a, c + 1);
        } else {
            lemma_word_extend(b, a, i + 1);
        }
    }
}

proof fn lemma_good_extend(b: Seq<char>, a: Seq<char>)
    requires
        good_body(b),
        is_atom(a),
        is_ascii_chars(a),
    ensures
        good_body(b + a),
{
    lemma_word_extend(b, a, 1);
    assert forall|j: int| 0 <= j < (b + a).len() implies '\0' <= #[trigger] (b + a)[j] <= '\u{7f}' by {
        if j < b.len() {
            assert((b + a)[j] == b[j]);
        } else {
            assert((b + a)[j] == a[j - b.len()]);
        }
    }
}

proof fn lemma_scan_good(s: Seq<char>, ii: int, body: Seq<char>, bodies: Seq<Seq<char>>)
    requires
        is_ascii_chars(s),
        0 <= ii,
        good_body(body),
        forall|k: int| 0 <= k < bodies.len() ==> good_body(#[trigger] bodies[k]),
    ensures
        scan_bodies(s, ii, body, bodies) matches Ok(bs) ==> forall|k: int| 0 <= k < bs.len() ==> good_body(#[trigger] bs[k]),
    decreases s.len() - ii,
{
    if ii < s.len() {
        let e: Seq<char> = Seq::empty();
        assert(marked(e) =~= seq!['.', '$']);
        assert(good_body(e));
        if s[ii] == '|' {
            if ii != s.len() - 1 {
                let bodies2 = bodies.push(body);
                assert forall|k: int| 0 <= k < bodies2.len() implies good_body(#[trigger] bodies2[k]) by {
                    if k < bodies.len() {
                        assert(bodies2[k] == bodies[k]);
                    }
                }
                lemma_scan_good(s, ii + 1, e, bodies2);
            }
        } else if s[ii] == '[' {
            let c = close_from(s, ii);
            if c < s.len() && c > ii {
                lemma_close_from(s, ii);
                let a = s.subrange(ii, c) + seq![']'];
                assert forall|j: int| 1 <= j < a.len() - 1 implies #[trigger] a[j] != ']' by {
                    assert(a[j] == s[ii + j]);
                }
                assert(a[0] == s[ii]);
                assert(is_atom(a));
                assert forall|j: int| 0 <= j < a.len() implies '\0' <= #[trigger] a[j] <= '\u{7f}' by {
                    if j < a.len() - 1 {
                        assert(a[j] == s[ii + j]);
                    }
                }
                lemma_good_extend(body, a);
                assert(body + s.subrange(ii, c) + seq![']'] =~= body + a);
                lemma_scan_good(s, c + 1, body + a, bodies);
            }
        } else if is_symbol_char(s[ii]) {
            let a = seq![s[ii]];
            assert(is_atom(a));
            lemma_good_extend(body, a);
            assert(body.push(s[ii]) =~= body + a);
            lemma_scan_good(s, ii + 1, body.push(s[ii]), bodies);
        }
    } else {
        let bs = bodies.push(body);
        assert forall|k: int| 0 <= k < bs.len() implies good_body(#[trigger] bs[k]) by {
            if k < bodies.len() {
                assert(bs[k] == bodies[k]);
            }
        }
    }
}

/// Every grammar that the parser accepts is made of well-formed items.
pub proof fn lemma_parsed_rules_wf(lines: Seq<Seq<char>>)
    requires
        lines_readable(lines),
    ensures
        parse_rules_spec(lines) matches Ok(rs) ==> wf_rules(rs),
    decreases lines.len(),
{
    if lines.len() > 0 {
        let init = lines.drop_last();
        assert forall|i: int| 0 <= i < init.len() && (#[trigger] parse_rules_spec(init.take(i))) is Ok implies is_ascii_chars(init[i]) by {
            assert(init.take(i) =~= lines.take(i));
            assert(parse_rules_spec(lines.take(i)) is Ok);
        }
        lemma_parsed_rules_wf(init);
        if let Ok(acc) = parse_rules_spec(init) {
            assert(lines.take(lines.len() - 1) =~= init);
            assert(parse_rules_spec(lines.take(lines.len() - 1)) is Ok);
            let s = lines.last();
            assert(is_ascii_chars(s));
            if let LineParse::Parsed(h, bs) = parse_line(s) {
                let c = close_from(s, 1);
                lemma_close_from(s, 1);
                let e: Seq<char> = Seq::empty();
                assert(marked(e) =~= seq!['.', '$']);
                lemma_scan_good(s, c + 3, e, Seq::empty());
                let fb = fresh_bodies(bs);
                assert forall|k: int| 0 <= k < fb.len() implies wf_post(#[trigger] fb[k].post) by {
                    assert(good_body(bs[k]));
                    assert(fb[k].post == marked(bs[k]));
                    let p = marked(bs[k]);
                    assert forall|j: int| 0 <= j < p.len() implies '\0' <= #[trigger] p[j] <= '\u{7f}' by {
                        if 0 < j < p.len() - 1 {
                            assert(p[j] == bs[k][j - 1]);
                        }
                    }
                }
                lemma_append_rule_wf(acc, h, fb);
            }
        }
    }
}

proof fn lemma_filter_rules_wf(rs: Seq<RuleV>)
    requires
        wf_rules(rs),
    ensures
        wf_rules(filter_rules_spec(rs)),
    decreases rs.len(),
{
    if rs.len() > 0 {
        let init = rs.drop_last();
        assert(wf_rules(init)) by {
            assert forall|i: int, k: int| 0 <= i < init.len() && 0 <= k < init[i].bodies.len() implies wf_post(#[trigger] init[i].bodies[k].post) by {
                assert(init[i] == rs[i]);
            }
        }
        lemma_filter_rules_wf(init);
        let last = rs.last();
        assert forall|k: int| 0 <= k < last.bodies.len() implies wf_post(#[trigger] last.bodies[k].post) by {
            assert(rs[rs.len() - 1] == last);
        }
        lemma_append_rule_wf(filter_rules_spec(init), last.head, last.bodies);
    }
}

proof fn lemma_merge_bodies_wf(bs: Seq<BodyV>, new: Seq<BodyV>)
    requires
        forall|k: int| 0 <= k < bs.len() ==> wf_post(#[trigger] bs[k].post),
        forall|k: int| 0 <= k < new.len() ==> wf_post(#[trigger] new[k].post),
    ensures
        forall|k: int| 0 <= k < merge_bodies(bs, new).len() ==> wf_post(#[trigger] merge_bodies(bs, new)[k].post),
    decreases new.len(),
{
    if new.len() > 0 {
        let init = new.drop_last();
        assert forall|k: int| 0 <= k < init.len() implies wf_post(#[trigger] init[k].post) by {
            assert(init[k] == new[k]);
        }
        lemma_merge_bodies_wf(bs, init);
        assert(merge_bodies(bs, new) == {
            let acc = merge_bodies(bs, init);
            if acc.contains(new.last()) { acc } else { acc.push(new.last()) }
        });
        assert(wf_post(new[new.len() - 1].post));
    }
}

proof fn lemma_formalize_roots_wf(rs: Seq<RuleV>)
    requires
        wf_rules(rs),
    ensures
        wf_rules(formalize_roots_spec(rs)),
    decreases rs.len(),
{
    if rs.len() > 0 {
        let init = rs.drop_last();
        assert(wf_rules(init)) by {
            assert forall|i: int, k: int| 0 <= i < init.len() && 0 <= k < init[i].bodies.len() implies wf_post(#[trigger] init[i].bodies[k].post) by {
                assert(init[i] == rs[i]);
            }
        }
        lemma_formalize_roots_wf(init);
        let acc = formalize_roots_spec(init);
        let r = rs.last();
        assert(formalize_roots_spec(rs) == add_root(acc, r));
        assert forall|k: int| 0 <= k < r.bodies.len() implies wf_post(#[trigger] r.bodies[k].post) by {
            assert(rs[rs.len() - 1] == r);
        }
        lemma_head_index(acc, r.head);
        let j = head_index(acc, r.head) as int;
        if j < acc.len() {
            assert forall|k: int| 0 <= k < acc[j].bodies.len() implies wf_post(#[trigger] acc[j].bodies[k].post) by {}
            lemma_merge_bodies_wf(acc[j].bodies, r.bodies);
        }
        let out = add_root(acc, r);
        assert forall|i: int, k: int| 0 <= i < out.len() && 0 <= k < out[i].bodies.len() implies wf_post(#[trigger] out[i].bodies[k].post) by {
            if i < acc.len() && i != j {
                assert(out[i] == acc[i]);
            }
        }
    }
}

proof fn lemma_goto_bodies_wf(acc: Seq<RuleV>, head: Seq<char>, bs: Seq<BodyV>, x: Seq<char>)
    requires
        wf_rules(acc),
        forall|k: int| 0 <= k < bs.len() ==> wf_post(#[trigger] bs[k].post),
    ensures
        wf_rules(goto_bodies(acc, head, bs, x)),
        goto_bodies(acc, head, bs, x).len() >= acc.len(),
        forall|i: int| 0 <= i < acc.len() ==> goto_bodies(acc, head, bs, x)[i] == acc[i],
    decreases bs.len(),
{
    if bs.len() > 0 {
        let init = bs.drop_last();
        assert forall|k: int| 0 <= k < init.len() implies wf_post(#[trigger] init[k].post) by {
            assert(init[k] == bs[k]);
        }
        lemma_goto_bodies_wf(acc, head, init, x);
        let a = goto_bodies(acc, head, init, x);
        let b = bs.last();
        assert(wf_post(bs[bs.len() - 1].post));
        if b.post[1] != '$' && next_symbol(b.post) == x {
            lemma_shift_post(b);
            let nr = RuleV { head, bodies: seq![shift_body(b)] };
            let out = a.push(nr);
            assert forall|i: int, k: int| 0 <= i < out.len() && 0 <= k < out[i].bodies.len() implies wf_post(#[trigger] out[i].bodies[k].post) by {
                if i < a.len() {
                    assert(out[i] == a[i]);
                } else {
                    assert(out[i].bodies[k] == shift_body(b));
                }
            }
        }
    }
}

proof fn lemma_goto_rules_wf(acc: Seq<RuleV>, rs: Seq<RuleV>, x: Seq<char>)
    requires
        wf_rules(acc),
        wf_rules(rs),
    ensures
        wf_rules(goto_rules(acc, rs, x)),
    decreases rs.len(),
{
    if rs.len() > 0 {
        let init = rs.drop_last();
        assert(wf_rules(init)) by {
            assert forall|i: int, k: int| 0 <= i < init.len() && 0 <= k < init[i].bodies.len() implies wf_post(#[trigger] init[i].bodies[k].post) by {
                assert(init[i] == rs[i]);
            }
        }
        lemma_goto_rules_wf(acc, init, x);
        let r = rs.last();
        assert forall|k: int| 0 <= k < r.bodies.len() implies wf_post(#[trigger] r.bodies[k].post) by {
            assert(rs[rs.len() - 1] == r);
        }
        lemma_goto_bodies_wf(goto_rules(acc, init, x), r.head, r.bodies, x);
    }
}


/// The symbols read after the dots of the kernel items, each once.
fn root_exits(roots: &Vec<Rule>) -> (res: Vec<String>)
    requires
        wf_rules(rules_view(roots@)),
    ensures
        strs_view(res@) == exits_of_rules(Seq::empty(), rules_view(roots@)),
{
    let ghost rs = rules_view(roots@);
    let mut exits: Vec<String> = Vec::new();
    assert(strs_view(exits@) =~= exits_of_rules(Seq::empty(), rs.take(0)));
    let mut i: usize = 0;
    while i < roots.len()
        invariant
            rs == rules_view(roots@),
            wf_rules(rs),
            i <= roots.len(),
            strs_view(exits@) == exits_of_rules(Seq::empty(), rs.take(i as int)),
        decreases roots.len() - i,
    {
        let ghost ex_i = strs_view(exits@);
        let ghost bs = rs[i as int].bodies;
        assert(bs == bodies_view(roots@[i as int].bodies@));
        let mut j: usize = 0;
        assert(bs.take(0) =~= Seq::<BodyV>::empty());
        while j < roots[i].bodies.len()
            invariant
                rs == rules_view(roots@),
                wf_rules(rs),
                i < roots.len(),
                bs == rs[i as int].bodies,
                bs == bodies_view(roots@[i as int].bodies@),
                j <= bs.len(),
                strs_view(exits@) == exits_of_bodies(ex_i, bs.take(j as int)),
            decreases bs.len() - j,
        {
            let post = &roots[i].bodies[j].post;
            assert(bs.take(j + 1).drop_last() =~= bs.take(j as int));
            assert(bs[j as int].post == post@);
            assert(wf_post(rs[i as int].bodies[j as int].post));
            if char_at(post, 1) != '$' {
                let term = read_symbol(post);
                if !inside(term.clone(), clone_strs(&exits)) {
                    let ghost prev = strs_view(exits@);
                    exits.push(term);
                    assert(strs_view(exits@) =~= prev.push(next_symbol(post@)));
                }
            }
            j += 1;
        }
        assert(bs.take(j as int) =~= bs);
        assert(rs.take(i + 1).drop_last() =~= rs.take(i as int));
        assert(rs.take(i + 1).last() == rs[i as int]);
        i += 1;
    }
    assert(rs.take(i as int) =~= rs);
    exits
}

/// The first symbol after a dot, among `bodies`, that is not yet an exit.
fn find_new_exit(bodies: &Vec<Rule_body>, exits: &Vec<String>) -> (res: Option<String>)
    requires
        forall|k: int| 0 <= k < bodies@.len() ==> wf_post(#[trigger] bodies@[k]@.post),
    ensures
        match first_new_exit(bodies_view(bodies@), strs_view(exits@), 0) {
            Some(t) => res matches Some(r) && r@ == t,
            None => res is None,
        },
{
    let ghost bs = bodies_view(bodies@);
    let mut k: usize = 0;
    while k < bodies.len()
        invariant
            bs == bodies_view(bodies@),
            forall|kk: int| 0 <= kk < bodies@.len() ==> wf_post(#[trigger] bodies@[kk]@.post),
            k <= bodies.len(),
            first_new_exit(bs, strs_view(exits@), 0) == first_new_exit(bs, strs_view(exits@), k as int),
        decreases bodies.len() - k,
    {
        let post = &bodies[k].post;
        assert(wf_post(bodies@[k as int]@.post));
        assert(bs[k as int].post == post@);
        if char_at(post, 1) != '$' {
            let term = read_symbol(post);
            if !inside(term.clone(), clone_strs(exits)) {
                return Some(term);
            }
        }
        k += 1;
    }
    None
}

/// The closure of a state whose kernel reads the symbols `exits`: the rules
/// added to the state and all symbols the state reads.
#[verifier::loop_isolation(false)]
fn close_state(rules: &Vec<Rule>, exits: Vec<String>, Ghost(bound): Ghost<int>) -> (res: (Vec<String>, Vec<Rule>))
    requires
        wf_rules(rules_view(rules@)),
        strs_view(exits@).no_duplicates(),
        bound == strs_view(exits@).len() + all_syms(rules_view(rules@)).len(),
    ensures
        (strs_view(res.0@), rules_view(res.1@)) == closure(rules_view(rules@), bound, strs_view(exits@), Seq::empty(), 0),
{
    let ghost rs = rules_view(rules@);
    let ghost ex0 = strs_view(exits@);
    let ghost u = ex0 + all_syms(rs);
    let mut exits = exits;
    let mut state_rules: Vec<Rule> = Vec::new();
    assert(rules_view(state_rules@) =~= Seq::<RuleV>::empty());
    assert forall|x: Seq<char>| strs_view(exits@).contains(x) implies u.contains(x) by {
        let w = choose|w: int| 0 <= w < ex0.len() && ex0[w] == x;
        assert(u[w] == x);
    }
    let mut j: usize = 0;
    while j < rules.len()
        invariant
            j <= rules.len(),
            strs_view(exits@).no_duplicates(),
            forall|x: Seq<char>| strs_view(exits@).contains(x) ==> u.contains(x),
            closure(rs, bound, ex0, Seq::empty(), 0) == closure(rs, bound, strs_view(exits@), rules_view(state_rules@), j as int),
        decreases bound - strs_view(exits@).len(), rules.len() - j,
    {
        assert(rs[j as int] == rules@[j as int]@);
        if inside(rules[j].head.clone(), clone_strs(&exits)) {
            let ghost prev = rules_view(state_rules@);
            state_rules.push(rules[j].clone());
            assert(rules_view(state_rules@) =~= prev.push(rs[j as int]));
            assert forall|k: int| 0 <= k < rules@[j as int].bodies@.len() implies wf_post(#[trigger] rules@[j as int].bodies@[k]@.post) by {
                assert(rs[j as int].bodies[k] == rules@[j as int].bodies@[k]@);
                assert(wf_post(rs[j as int].bodies[k].post));
            }
            match find_new_exit(&rules[j].bodies, &exits) {
                Some(term) => {
                    let ghost ex = strs_view(exits@);
                    proof {
                        lemma_first_new_exit(rs[j as int].bodies, ex, 0);
                        let kk = choose|kk: int| 0 <= kk < rs[j as int].bodies.len() && term@ == next_symbol(#[trigger] rs[j as int].bodies[kk].post);
                        lemma_all_syms_contains(rs, j as int, kk);
                        let w = choose|w: int| 0 <= w < all_syms(rs).len() && all_syms(rs)[w] == term@;
                        assert(u[ex0.len() + w] == term@);
                        assert forall|x: Seq<char>| ex.push(term@).contains(x) implies u.contains(x) by {
                            if x != term@ {
                                assert(ex.contains(x));
                            }
                        }
                        lemma_len_bound(ex.push(term@), u);
                    }
                    exits.push(term);
                    assert(strs_view(exits@) =~= ex.push(term@));
                    state_rules = Vec::new();
                    assert(rules_view(state_rules@) =~= Seq::<RuleV>::empty());
                    j = 0;
                    continue;
                },
                None => {},
            }
        }
        j += 1;
    }
    (exits, state_rules)
}

/// The items of `state_rules` that read `x`, with the dot moved over it.
fn goto_items(state_rules: &Vec<Rule>, x: &String) -> (res: Vec<Rule>)
    requires
        wf_rules(rules_view(state_rules@)),
    ensures
        rules_view(res@) == goto_rules(Seq::empty(), rules_view(state_rules@), x@),
{
    let ghost rs = rules_view(state_rules@);
    let mut new_roots: Vec<Rule> = Vec::new();
    assert(rules_view(new_roots@) =~= goto_rules(Seq::empty(), rs.take(0), x@));
    let mut j: usize = 0;
    while j < state_rules.len()
        invariant
            rs == rules_view(state_rules@),
            wf_rules(rs),
            j <= state_rules.len(),
            rules_view(new_roots@) == goto_rules(Seq::empty(), rs.take(j as int), x@),
        decreases state_rules.len() - j,
    {
        let ghost acc = rules_view(new_roots@);
        let ghost r = rs[j as int];
        assert(r == state_rules@[j as int]@);
        let mut k: usize = 0;
        assert(r.bodies.take(0) =~= Seq::<BodyV>::empty());
        while k < state_rules[j].bodies.len()
            invariant
                rs == rules_view(state_rules@),
                wf_rules(rs),
                j < state_rules.len(),
                r == rs[j as int],
                r == state_rules@[j as int]@,
                k <= r.bodies.len(),
                rules_view(new_roots@) == goto_bodies(acc, r.head, r.bodies.take(k as int), x@),
            decreases r.bodies.len() - k,
        {
            let b = &state_rules[j].bodies[k];
            assert(r.bodies[k as int] == b@);
            assert(wf_post(rs[j as int].bodies[k as int].post));
            assert(r.bodies.take(k + 1).drop_last() =~= r.bodies.take(k as int));
            assert(r.bodies.take(k + 1).last() == b@);
            if char_at(&b.post, 1) != '$' {
                let sym = read_symbol(&b.post);
                if sym == *x {
                    let nb = shift(b);
                    let ghost prev = rules_view(new_roots@);
                    new_roots.push(Rule { head: state_rules[j].head.clone(), bodies: vec![nb] });
                    assert(bodies_view(new_roots@[new_roots@.len() - 1].bodies@) =~= seq![shift_body(b@)]);
                    assert(rules_view(new_roots@) =~= prev.push(RuleV { head: r.head, bodies: seq![shift_body(b@)] }));
                }
            }
            k += 1;
        }
        assert(r.bodies.take(k as int) =~= r.bodies);
        assert(rs.take(j + 1).drop_last() =~= rs.take(j as int));
        assert(rs.take(j + 1).last() == r);
        j += 1;
    }
    assert(rs.take(j as int) =~= rs);
    new_roots
}


/// The kernel and the items of every state are well formed.
pub open spec fn states_wf(sts: Seq<StateV>) -> bool {
    forall|i: int| #![trigger sts[i]] 0 <= i < sts.len() ==> wf_rules(sts[i].roots) && wf_rules(sts[i].rules)
}

/// The items of well-formed states can be printed.
pub proof fn lemma_states_printable(sts: Seq<StateV>)
    requires
        states_wf(sts),
    ensures
        states_printable(sts),
{
    assert forall|i: int, j: int| 0 <= i < sts.len() && 0 <= j < sts[i].rules.len() implies printable_rule(#[trigger] sts[i].rules[j]) by {
        assert(wf_rules(sts[i].rules));
        lemma_wf_printable(sts[i].rules);
    }
}

proof fn lemma_closure_within(rules: Seq<RuleV>, bound: int, ex: Seq<Seq<char>>, sr: Seq<RuleV>, j: int)
    requires
        forall|i: int| 0 <= i < sr.len() ==> rules.contains(#[trigger] sr[i]),
    ensures
        forall|i: int| 0 <= i < closure(rules, bound, ex, sr, j).1.len()
            ==> rules.contains(#[trigger] closure(rules, bound, ex, sr, j).1[i]),
    decreases bound - ex.len(), rules.len() - j,
{
    if 0 <= j < rules.len() {
        if !ex.contains(rules[j].head) {
            assert(closure(rules, bound, ex, sr, j) == closure(rules, bound, ex, sr, j + 1));
            lemma_closure_within(rules, bound, ex, sr, j + 1);
        } else {
            match first_new_exit(rules[j].bodies, ex, 0) {
                None => {
                    let sr2 = sr.push(rules[j]);
                    assert forall|i: int| 0 <= i < sr2.len() implies rules.contains(#[trigger] sr2[i]) by {
                        if i < sr.len() {
                            assert(sr2[i] == sr[i]);
                        } else {
                            assert(sr2[i] == rules[j]);
                        }
                    }
                    assert(closure(rules, bound, ex, sr, j) == closure(rules, bound, ex, sr2, j + 1));
                    lemma_closure_within(rules, bound, ex, sr2, j + 1);
                },
                Some(t) => {
                    if ex.len() < bound {
                        assert(closure(rules, bound, ex, sr, j) == closure(rules, bound, ex.push(t), Seq::empty(), 0));
                        lemma_closure_within(rules, bound, ex.push(t), Seq::empty(), 0);
                    }
                },
            }
        }
    }
}

proof fn lemma_state_rules_wf(roots: Seq<RuleV>, rules: Seq<RuleV>, sr: Seq<RuleV>)
    requires
        wf_rules(roots),
        wf_rules(rules),
        forall|i: int| 0 <= i < sr.len() ==> rules.contains(#[trigger] sr[i]),
    ensures
        wf_rules(roots + sr),
{
    let all = roots + sr;
    assert forall|i: int, k: int| 0 <= i < all.len() && 0 <= k < all[i].bodies.len() implies wf_post(#[trigger] all[i].bodies[k].post) by {
        if i < roots.len() {
            assert(all[i] == roots[i]);
        } else {
            assert(all[i] == sr[i - roots.len()]);
            assert(rules.contains(sr[i - roots.len()]));
            let w = choose|w: int| 0 <= w < rules.len() && rules[w] == sr[i - roots.len()];
            assert(wf_post(rules[w].bodies[k].post));
        }
    }
}

proof fn lemma_find_state_le(states: Seq<StateV>, roots: Seq<RuleV>, i: int)
    requires
        0 <= i,
    ensures
        find_state(states, roots, i) <= states.len(),
        find_state(states, roots, i) < states.len() ==> i <= find_state(states, roots, i),
    decreases states.len() - i,
{
    if i < states.len() && !same_roots_spec(roots, states[i].roots) {
        lemma_find_state_le(states, roots, i + 1);
    }
}

/// The states are numbered 1, 2, ... in the order in which they are listed.
pub open spec fn numbered(sts: Seq<StateV>) -> bool {
    forall|k: int| 0 <= k < sts.len() ==> (#[trigger] sts[k]).id == k + 1
}

/// Every transition leaves from and leads to a number among 1 to `n`.
pub open spec fn shifts_within(sh: Seq<ShiftV>, n: int) -> bool {
    forall|k: int| 0 <= k < sh.len() ==> 1 <= (#[trigger] sh[k]).fr <= n && 1 <= sh[k].to <= n
}

proof fn lemma_shifts_wider(sh: Seq<ShiftV>, n: int, m: int)
    requires
        shifts_within(sh, n),
        n <= m,
    ensures
        shifts_within(sh, m),
{
}

proof fn lemma_shifts_push(sh: Seq<ShiftV>, n: int, s: ShiftV)
    requires
        shifts_within(sh, n),
        1 <= s.fr <= n,
        1 <= s.to <= n,
    ensures
        shifts_within(sh.push(s), n),
{
    assert forall|k: int| 0 <= k < sh.push(s).len() implies 1 <= (#[trigger] sh.push(s)[k]).fr <= n && 1 <= sh.push(s)[k].to <= n by {
        if k < sh.len() {
            assert(sh.push(s)[k] == sh[k]);
        }
    }
}

/// Growing the automaton from state `id` keeps the states numbered in order
/// and every transition between two of them.
pub proof fn lemma_lr_numbered(rules: Seq<RuleV>, roots: Seq<RuleV>, states: Seq<StateV>, shifts: Seq<ShiftV>, id: i32, max_id: i32)
    requires
        1 <= id,
        numbered(states),
        states.len() == id - 1,
        shifts_within(shifts, id as int),
    ensures
        build_lr(rules, roots, states, shifts, id, max_id) matches Some((st, sh, id2)) ==>
            numbered(st) && st.len() == id2 - 1 && shifts_within(sh, st.len() as int),
    decreases max_id - id, 1int, 0int,
{
    if id < max_id {
        let ex0 = exits_of_rules(Seq::empty(), roots);
        let (exits, sr) = closure(rules, lr_bound(rules, roots), ex0, Seq::empty(), 0);
        let st_rules = roots + sr;
        let st1 = states.push(StateV { id, roots, rules: st_rules });
        assert forall|k: int| 0 <= k < st1.len() implies (#[trigger] st1[k]).id == k + 1 by {
            if k < states.len() {
                assert(st1[k] == states[k]);
            }
        }
        lemma_lr_exits_numbered(rules, st_rules, exits, id, st1, shifts, (id + 1) as i32, max_id, 0);
    }
}

proof fn lemma_lr_exits_numbered(rules: Seq<RuleV>, sr: Seq<RuleV>, exits: Seq<Seq<char>>, from: i32, states: Seq<StateV>, shifts: Seq<ShiftV>, id: i32, max_id: i32, i: int)
    requires
        1 <= id,
        numbered(states),
        states.len() == id - 1,
        1 <= from <= states.len(),
        shifts_within(shifts, states.len() as int),
    ensures
        build_lr_exits(rules, sr, exits, from, states, shifts, id, max_id, i) matches Some((st, sh, id2)) ==>
            numbered(st) && st.len() == id2 - 1 && shifts_within(sh, st.len() as int),
    decreases max_id - id + 1, 0int, exits.len() - i,
{
    if !(id > max_id || i < 0 || i >= exits.len()) {
        let nr = filter_rules_spec(goto_rules(Seq::empty(), sr, exits[i]));
        let f = find_state(states, nr, 0);
        lemma_find_state_le(states, nr, 0);
        if f < states.len() {
            let s = ShiftV { value: exits[i], fr: from, to: states[f].id };
            lemma_shifts_push(shifts, states.len() as int, s);
            lemma_lr_exits_numbered(rules, sr, exits, from, states, shifts.push(s), id, max_id, i + 1);
        } else {
            let s = ShiftV { value: exits[i], fr: from, to: id };
            lemma_shifts_wider(shifts, states.len() as int, id as int);
            lemma_shifts_push(shifts, id as int, s);
            let shifts2 = shifts.push(s);
            lemma_lr_numbered(rules, formalize_roots_spec(nr), states, shifts2, id, max_id);
            match build_lr(rules, formalize_roots_spec(nr), states, shifts2, id, max_id) {
                None => {},
                Some((st, sh, id2)) => {
                    if !(id2 < id || id2 > max_id) {
                        lemma_lr_exits_numbered(rules, sr, exits, from, st, sh, id2, max_id, i + 1);
                    }
                },
            }
        }
    }
}

/// The first state whose kernel prints as `new_roots` (`states.len()` when
/// none).
fn locate_state(states: &Vec<State>, new_roots: &Vec<Rule>) -> (res: usize)
    requires
        wf_rules(rules_view(new_roots@)),
        states_wf(states_view(states@)),
    ensures
        res as int == find_state(states_view(states@), rules_view(new_roots@), 0),
{
    let ghost sts = states_view(states@);
    let ghost nr = rules_view(new_roots@);
    proof {
        lemma_wf_printable(nr);
    }
    let mut ii: usize = 0;
    while ii < states.len()
        invariant
            sts == states_view(states@),
            nr == rules_view(new_roots@),
            states_wf(sts),
            forall|i: int| 0 <= i < nr.len() ==> printable_rule(#[trigger] nr[i]),
            ii <= states.len(),
            find_state(sts, nr, 0) == find_state(sts, nr, ii as int),
        decreases states.len() - ii,
    {
        assert(sts[ii as int] == states@[ii as int]@);
        assert(wf_rules(sts[ii as int].roots));
        proof {
            lemma_wf_printable(sts[ii as int].roots);
        }
        if same_roots(clone_rules(new_roots), clone_rules(&states[ii].roots)) {
            return ii;
        }
        ii += 1;
    }
    ii
}

/// Builds the automaton from the state whose kernel is `roots`: the state
/// gets number `id`, and every symbol it reads leads to an existing state
/// with the same kernel or to a new state built the same way. The states and
/// transitions are added to `states` and `shifts`; the result also gives the
/// next free number. State numbers stay below `max_id` (`None` when more are
/// needed).
#[verifier::loop_isolation(false)]
pub fn build_LR(rules: Vec<Rule>, roots: Vec<Rule>, states: Vec<State>, shifts: Vec<Shift>, id: i32, max_id: i32) -> (res: Option<(Vec<State>, Vec<Shift>, i32)>)
    requires
        wf_rules(rules_view(rules@)),
        wf_rules(rules_view(roots@)),
        states_wf(states_view(states@)),
    ensures
        match build_lr(rules_view(rules@), rules_view(roots@), states_view(states@), shifts_view(shifts@), id, max_id) {
            None => res is None,
            Some((st, sh, id2)) => res matches Some((rst, rsh, rid))
                && states_view(rst@) == st && shifts_view(rsh@) == sh && rid == id2,
        },
        res matches Some((rst, rsh, rid)) ==> id < rid <= max_id && states_wf(states_view(rst@))
            && states_printable(states_view(rst@)),
        res matches Some((rst, rsh, rid)) ==> (rules_view(roots@).len() > 0 && states_nonempty(states_view(states@))
            ==> states_nonempty(states_view(rst@))),
        res matches Some((rst, rsh, rid)) ==> (1 <= id && numbered(states_view(states@)) && states_view(states@).len() == id - 1
            && shifts_within(shifts_view(shifts@), id as int) ==> numbered(states_view(rst@))
            && states_view(rst@).len() == rid - 1 && shifts_within(shifts_view(rsh@), states_view(rst@).len() as int)),
    decreases max_id - id,
{
    proof {
        if 1 <= id && numbered(states_view(states@)) && states_view(states@).len() == id - 1
            && shifts_within(shifts_view(shifts@), id as int) {
            lemma_lr_numbered(rules_view(rules@), rules_view(roots@), states_view(states@), shifts_view(shifts@), id, max_id);
        }
    }
    let ghost rv = rules_view(rules@);
    let ghost ro = rules_view(roots@);
    let ghost ne = ro.len() > 0 && states_nonempty(states_view(states@));
    if id >= max_id {
        return None;
    }
    let exits0 = root_exits(&roots);
    proof {
        lemma_exits_of_rules(Seq::empty(), ro);
    }
    let (exits, sr) = close_state(&rules, exits0, Ghost(lr_bound(rv, ro)));
    let ghost srv = rules_view(sr@);
    proof {
        lemma_closure_within(rv, lr_bound(rv, ro), exits_of_rules(Seq::empty(), ro), Seq::empty(), 0);
        lemma_state_rules_wf(ro, rv, srv);
        let ex0 = exits_of_rules(Seq::empty(), ro);
        let u = ex0 + all_syms(rv);
        lemma_exits_of_rules_read(Seq::empty(), ro);
        assert forall|x: Seq<char>| ex0.contains(x) implies u.contains(x) by {
            let w = choose|w: int| 0 <= w < ex0.len() && ex0[w] == x;
            assert(u[w] == x);
        }
        assert forall|x: Seq<char>| all_syms(rv).contains(x) implies u.contains(x) by {
            let w = choose|w: int| 0 <= w < all_syms(rv).len() && all_syms(rv)[w] == x;
            assert(u[ex0.len() + w] == x);
        }
        lemma_closure_reads(rv, lr_bound(rv, ro), u, ro, ex0, Seq::empty(), 0);
    }
    let mut state_rules = clone_rules(&roots);
    let mut sr = sr;
    state_rules.append(&mut sr);
    assert(rules_view(state_rules@) =~= ro + srv);
    let new_state = State { id, roots: clone_rules(&roots), rules: clone_rules(&state_rules) };
    let from = id;
    let mut cur = id + 1;
    let mut states = states;
    let mut shifts = shifts;
    let ghost st0 = states_view(states@);
    states.push(new_state);
    let ghost str = rules_view(state_rules@);
    let ghost exv = strs_view(exits@);
    assert(states_view(states@) =~= st0.push(StateV { id: from, roots: ro, rules: str }));
    assert(ne ==> states_nonempty(states_view(states@))) by {
        if ne {
            assert forall|i: int| 0 <= i < states_view(states@).len() implies (#[trigger] states_view(states@)[i]).roots.len() > 0 by {
                if i < st0.len() {
                    assert(states_view(states@)[i] == st0[i]);
                }
            }
        }
    }
    assert(states_wf(states_view(states@))) by {
        assert forall|i: int| 0 <= i < states_view(states@).len() implies wf_rules(#[trigger] states_view(states@)[i].roots) && wf_rules(states_view(states@)[i].rules) by {
            if i < st0.len() {
                assert(states_view(states@)[i] == st0[i]);
            }
        }
    }
    let ghost target = build_lr_exits(rv, str, exv, from, states_view(states@), shifts_view(shifts@), cur, max_id, 0);
    assert(target == build_lr(rv, ro, st0, shifts_view(shifts@), id, max_id));
    let mut i: usize = 0;
    while i < exits.len()
        invariant
            rv == rules_view(rules@),
            wf_rules(rv),
            str == rules_view(state_rules@),
            wf_rules(str),
            exv == strs_view(exits@),
            from == id,
            id < cur <= max_id,
            i <= exits.len(),
            states_wf(states_view(states@)),
            ne ==> states_nonempty(states_view(states@)),
            forall|x: Seq<char>| #[trigger] exv.contains(x) ==> rules_read(str, x),
            target == build_lr_exits(rv, str, exv, from, states_view(states@), shifts_view(shifts@), cur, max_id, i as int),
        decreases exits.len() - i,
    {
        let x = &exits[i];
        assert(exv[i as int] == x@);
        let goto = goto_items(&state_rules, x);
        proof {
            lemma_goto_rules_wf(Seq::empty(), str, x@);
            lemma_filter_rules_wf(rules_view(goto@));
        }
        let new_roots = filter_rules(goto);
        let f = locate_state(&states, &new_roots);
        if f < states.len() {
            let to = states[f].id;
            assert(states_view(states@)[f as int].id == to);
            let ghost prev = shifts_view(shifts@);
            shifts.push(Shift { value: x.clone(), fr: from, to });
            assert(shifts_view(shifts@) =~= prev.push(ShiftV { value: x@, fr: from, to }));
        } else {
            let ghost prev = shifts_view(shifts@);
            shifts.push(Shift { value: x.clone(), fr: from, to: cur });
            assert(shifts_view(shifts@) =~= prev.push(ShiftV { value: x@, fr: from, to: cur }));
            let ghost nr = rules_view(new_roots@);
            proof {
                lemma_formalize_roots_wf(nr);
                assert(exv.contains(exv[i as int]));
                lemma_goto_rules_len(Seq::empty(), str, x@);
                lemma_filter_rules_nonempty(goto_rules(Seq::empty(), str, x@));
                lemma_formalize_roots_nonempty(nr);
            }
            let kernel = formalize_roots(new_roots);
            let ghost st_before = states_view(states@);
            let ghost sh_before = shifts_view(shifts@);
            proof {
                lemma_find_state_le(st_before, nr, 0);
            }
            assert(f as int == st_before.len());
            assert(target == match build_lr(rv, formalize_roots_spec(nr), st_before, sh_before, cur, max_id) {
                None => None,
                Some((st, sh, id2)) => if id2 < cur || id2 > max_id {
                    None
                } else {
                    build_lr_exits(rv, str, exv, from, st, sh, id2, max_id, i + 1)
                },
            });
            match build_LR(clone_rules(&rules), kernel, states, shifts, cur, max_id) {
                None => {
                    return None;
                },
                Some((a, b, c)) => {
                    states = a;
                    shifts = b;
                    cur = c;
                },
            }
        }
        i += 1;
    }
    proof {
        lemma_states_printable(states_view(states@));
    }
    Some((states, shifts, cur))
}

} // verus!
