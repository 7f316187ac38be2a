//! FIRST_k and FOLLOW_k sets of the nonterminals of a grammar.
use vstd::prelude::*;
use vstd::utf8::is_ascii_chars;
use crate::slr::grammar::{
    BodyV, Rule, RuleV, Rule_body, bodies_view, clone_rules, close_from, get_rule, get_rule_spec,
    head_index, inside, lemma_close_from, lemma_head_index, rules_view, strs_view, clone_strs,
    clone_bodies,
};
use crate::slr::automaton::{lemma_word_from_offset, word_from, wf_post, wf_rules};
use crate::text::{char_at, char_len, char_string, empty_string, push_char, push_str, substring};

verus! {

/// A terminal string: no brackets, no end marker, only ASCII.
pub open spec fn plain(s: Seq<char>) -> bool {
    forall|i: int| 0 <= i < s.len() ==> #[trigger] s[i] != '[' && s[i] != ']' && s[i] != '$' && '\0' <= s[i] <= '\u{7f}'
}

/// The outcome of reading an alternative after its dot, for `first_k`.
pub enum Scan {
    /// The end marker or the lookahead length was reached: whether only
    /// terminals were read, the terminals read, the cycle counter.
    Done(bool, Seq<char>, int),
    /// A nonterminal is to be expanded: the terminals read before it, the
    /// cycle counter, its rule, the position after it, the count of
    /// terminals read so far.
    Expand(Seq<char>, int, RuleV, int, int),
    /// A counter would leave the range of `usize`.
    Overflow,
}

/// Reads the item text `post` from position `ii`: terminals are collected in
/// `n_char` until the end marker or `k` characters; the first nonterminal
/// that may be expanded stops the reading. A nonterminal right after the dot
/// that is the rule's own head (left recursion) counts as a cycle, and is
/// expanded only while the cycle counter does not exceed `k`.
pub open spec fn scan(rules: Seq<RuleV>, head: Seq<char>, post: Seq<char>, ii: int, k: int, have: int, danger: int, cycle: int, n_char: Seq<char>, terminal: bool) -> Scan
    decreases post.len() - ii,
{
    if ii < 1 || ii >= post.len() || post[ii] == '$' || ii - 1 >= k {
        Scan::Done(terminal, n_char, cycle)
    } else if post[ii] == '[' {
        let d1 = if ii == 1 { 1int } else { danger };
        let c = close_from(post, ii + 1);
        let nxt = c + 1;
        let nr = get_rule_spec(rules, post.subrange(ii + 1, c));
        let hit = nr.head == head && d1 == 1;
        if hit && cycle + 1 > usize::MAX {
            Scan::Overflow
        } else {
            let d2 = if hit { 2int } else { d1 };
            let c2 = if hit { cycle + 1 } else { cycle };
            if (nr.head != head || have <= k) && (d2 != 2 || c2 <= k) {
                Scan::Expand(n_char, c2, nr, nxt, have)
            } else if nxt <= ii || nxt > post.len() {
                Scan::Done(false, n_char, c2)
            } else {
                scan(rules, head, post, nxt, k, have, d2, c2, n_char, false)
            }
        }
    } else if have + 1 > usize::MAX {
        Scan::Overflow
    } else {
        scan(rules, head, post, ii + 1, k, have + 1, danger, cycle, n_char.push(post[ii]), terminal)
    }
}

/// The alternatives obtained by replacing a nonterminal by each of its
/// terminal prefixes `pref`.
pub open spec fn expand_bodies(pref: Seq<Seq<char>>, pre: Seq<char>, n_char: Seq<char>, rest: Seq<char>) -> Seq<BodyV> {
    pref.map_values(|p: Seq<char>| BodyV { pre, post: seq!['.'] + n_char + p + rest })
}

/// The FIRST_k strings of the alternatives of a rule from the `i`-th on.
/// Alternatives that start with nonterminals are replaced by new alternatives
/// (added at the end of the list) in which the nonterminal is replaced by
/// each of its own FIRST_k strings. At most `fuel - steps` more alternatives
/// are read (`None` beyond, or when a counter overflows).
pub open spec fn fk_loop(rules: Seq<RuleV>, head: Seq<char>, bodies: Seq<BodyV>, i: int, k: int, have1: int, cycle: int, out: Seq<Seq<char>>, fuel: nat, steps: nat) -> Option<Seq<Seq<char>>>
    decreases fuel, 0int, fuel - steps,
{
    if i < 0 || i >= bodies.len() {
        Some(out)
    } else if steps >= fuel {
        None
    } else {
        let b = bodies[i];
        match scan(rules, head, b.post, 1, k, have1, 0, cycle, Seq::empty(), true) {
            Scan::Done(terminal, n_char, cycle2) => {
                let out2 = if terminal && !out.contains(n_char) { out.push(n_char) } else { out };
                fk_loop(rules, head, bodies, i + 1, k, have1, cycle2, out2, fuel, steps + 1)
            },
            Scan::Expand(n_char, cycle2, nr, nxt, have) => {
                match first_k_spec(rules, nr, k, have, cycle2, (fuel - 1) as nat) {
                    None => None,
                    Some(pref) => {
                        let added = expand_bodies(pref, b.pre, n_char, b.post.subrange(nxt, b.post.len() as int));
                        fk_loop(rules, head, bodies + added, i + 1, k, have1, cycle2, out, fuel, steps + 1)
                    },
                }
            },
            Scan::Overflow => None,
        }
    }
}

/// The terminal strings of length at most `k` that the alternatives of `rule`
/// start with (FIRST_k), each once, in order of discovery; `None` when more
/// than `fuel` alternatives would be read at some level or more than `fuel`
/// levels of nonterminals expanded.
pub open spec fn first_k_spec(rules: Seq<RuleV>, rule: RuleV, k: int, have1: int, cycle: int, fuel: nat) -> Option<Seq<Seq<char>>>
    decreases fuel, 1int, 0int,
{
    if fuel == 0 {
        None
    } else {
        fk_loop(rules, rule.head, rule.bodies, 0, k, have1, cycle, Seq::empty(), fuel, 0)
    }
}


/// [`Scan`] with executable values.
enum ScanOut {
    Done(bool, String, usize),
    Expand(String, usize, Rule, usize, usize),
    Overflow,
}

impl View for ScanOut {
    type V = Scan;

    closed spec fn view(&self) -> Scan {
        match self {
            ScanOut::Done(t, n, c) => Scan::Done(*t, n@, *c as int),
            ScanOut::Expand(n, c, r, nxt, h) => Scan::Expand(n@, *c as int, r@, *nxt as int, *h as int),
            ScanOut::Overflow => Scan::Overflow,
        }
    }
}

proof fn lemma_word_plain(q: Seq<char>, i: int, e: int)
    requires
        1 <= i <= e,
        forall|m: int| i <= m < e ==> q[m] != '[' && q[m] != ']' && q[m] != '$',
        word_from(q, e),
    ensures
        word_from(q, i),
    decreases e - i,
{
    if i < e {
        lemma_word_plain(q, i + 1, e);
        assert(e < q.len()) by {
            if e >= q.len() {
                assert(!word_from(q, e));
            }
        }
    }
}

proof fn lemma_expand_wf(x: Seq<char>, post: Seq<char>, nxt: int)
    requires
        plain(x),
        wf_post(post),
        1 <= nxt < post.len(),
        word_from(post, nxt),
    ensures
        wf_post(seq!['.'] + x + post.subrange(nxt, post.len() as int)),
{
    let q = seq!['.'] + x + post.subrange(nxt, post.len() as int);
    lemma_word_from_offset(post, q, nxt, 1 + x.len() - nxt);
    assert forall|m: int| 1 <= m < 1 + x.len() implies q[m] != '[' && q[m] != ']' && q[m] != '$' by {
        assert(q[m] == x[m - 1]);
    }
    lemma_word_plain(q, 1, 1 + x.len() as int);
    assert(q[0] == '.');
    assert(is_ascii_chars(q)) by {
        assert forall|m: int| 0 <= m < q.len() implies '\0' <= #[trigger] q[m] <= '\u{7f}' by {
            if m == 0 {
                assert(q[m] == '.');
            } else if 1 <= m < 1 + x.len() {
                assert(q[m] == x[m - 1]);
                assert(x[m - 1] <= '\u{7f}');
                assert('\0' <= x[m - 1]);
            } else if m >= 1 + x.len() {
                let w = m - 1 - x.len() + nxt;
                assert(q[m] == post[w]);
                assert(0 <= w < post.len());
                assert('\0' <= post[w] <= '\u{7f}');
            }
        }
    }
}

proof fn lemma_get_rule_wf(rs: Seq<RuleV>, h: Seq<char>)
    requires
        wf_rules(rs),
    ensures
        forall|k: int| 0 <= k < get_rule_spec(rs, h).bodies.len() ==> wf_post(#[trigger] get_rule_spec(rs, h).bodies[k].post),
{
    lemma_head_index(rs, h);
    let i = head_index(rs, h) as int;
    if i < rs.len() {
        assert forall|k: int| 0 <= k < rs[i].bodies.len() implies wf_post(#[trigger] rs[i].bodies[k].post) by {}
    }
}

/// Reads an alternative after its dot (see [`scan`]).
#[verifier::loop_isolation(false)]
fn scan_body(rules: &Vec<Rule>, head: &String, post: &String, k: i32, have: usize, cycle: usize) -> (res: ScanOut)
    requires
        wf_rules(rules_view(rules@)),
        wf_post(post@),
        k >= 0,
    ensures
        res@ == scan(rules_view(rules@), head@, post@, 1, k as int, have as int, 0, cycle as int, Seq::empty(), true),
        res matches ScanOut::Done(_, n, _) ==> plain(n@) && n@.len() <= k,
        res matches ScanOut::Expand(n, _, r, nxt, _) ==> plain(n@) && 1 <= nxt < post@.len() && word_from(post@, nxt as int)
            && forall|kk: int| 0 <= kk < r@.bodies.len() ==> wf_post(#[trigger] r@.bodies[kk].post),
{
    let ghost rv = rules_view(rules@);
    let ghost p = post@;
    let ghost target = scan(rv, head@, p, 1, k as int, have as int, 0, cycle as int, Seq::empty(), true);
    let n = char_len(post);
    let kk = k as usize;
    let mut ii: usize = 1;
    let mut have = have;
    let mut cycle = cycle;
    let mut danger: usize = 0;
    let mut n_char = empty_string();
    let mut terminal = true;
    loop
        invariant
            n == p.len(),
            1 <= ii,
            word_from(p, ii as int),
            plain(n_char@),
            n_char@.len() <= ii - 1,
            n_char@.len() <= k,
            danger <= 2,
            target == scan(rv, head@, p, ii as int, k as int, have as int, danger as int, cycle as int, n_char@, terminal),
        decreases n - ii,
    {
        assert(ii < n) by {
            if ii >= n {
                assert(!word_from(p, ii as int));
            }
        }
        let c = char_at(post, ii);
        if c == '$' || !(ii - 1 < kk) {
            return ScanOut::Done(terminal, n_char, cycle);
        }
        if c == '[' {
            if ii == 1 {
                danger = 1;
            }
            terminal = false;
            let start = ii + 1;
            proof {
                lemma_close_from(p, start as int);
            }
            let ghost cl = close_from(p, start as int);
            let mut j: usize = start;
            let mut name = empty_string();
            while char_at(post, j) != ']'
                invariant
                    n == p.len(),
                    start <= j <= cl,
                    cl < p.len() - 1,
                    forall|m: int| start <= m < cl ==> p[m] != ']',
                    p[cl] == ']',
                    name@ == p.subrange(start as int, j as int),
                decreases cl - j,
            {
                push_char(&mut name, char_at(post, j));
                assert(p.subrange(start as int, j + 1) =~= p.subrange(start as int, j as int).push(p[j as int]));
                j += 1;
            }
            let nxt = j + 1;
            proof {
                lemma_get_rule_wf(rv, name@);
            }
            let nr = get_rule(clone_rules(rules), name);
            let hit = nr.head == *head && danger == 1;
            if hit {
                danger = 2;
                if cycle == usize::MAX {
                    return ScanOut::Overflow;
                }
                cycle += 1;
            }
            if (nr.head != *head || have <= kk) && (danger != 2 || cycle <= kk) {
                return ScanOut::Expand(n_char, cycle, nr, nxt, have);
            }
            ii = nxt;
        } else {
            if have == usize::MAX {
                return ScanOut::Overflow;
            }
            push_char(&mut n_char, c);
            have += 1;
            ii += 1;
        }
    }
}

/// The terminal strings of length at most `k` that the alternatives of `rule`
/// start with (FIRST_k), each once. Nonterminals are expanded through their
/// rules; a rule that is its own left corner is expanded at most `k` times.
/// `have1` counts the terminals read before `rule` and `cycle` the left
/// recursions met so far. At most `fuel` alternatives are read at each level
/// and at most `fuel` levels expanded (`None` beyond, or when a counter
/// would overflow).
#[verifier::loop_isolation(false)]
pub fn first_k(rules: Vec<Rule>, rule: Rule, k: i32, have1: usize, cycle: usize, fuel: usize) -> (res: Option<Vec<String>>)
    requires
        wf_rules(rules_view(rules@)),
        forall|kk: int| 0 <= kk < rule@.bodies.len() ==> wf_post(#[trigger] rule@.bodies[kk].post),
        k >= 0,
    ensures
        match first_k_spec(rules_view(rules@), rule@, k as int, have1 as int, cycle as int, fuel as nat) {
            None => res is None,
            Some(out) => res matches Some(v) && strs_view(v@) == out,
        },
        res matches Some(v) ==> forall|m: int| 0 <= m < v@.len() ==> plain(#[trigger] v@[m]@) && v@[m]@.len() <= k,
    decreases fuel,
{
    let ghost rv = rules_view(rules@);
    if fuel == 0 {
        return None;
    }
    let mut out: Vec<String> = Vec::new();
    let mut bodies = clone_bodies(&rule.bodies);
    let mut cycle = cycle;
    let mut i: usize = 0;
    let mut steps: usize = 0;
    let ghost target = first_k_spec(rv, rule@, k as int, have1 as int, cycle as int, fuel as nat);
    assert(strs_view(out@) =~= Seq::<Seq<char>>::empty());
    assert forall|kk: int| 0 <= kk < bodies@.len() implies wf_post(#[trigger] bodies@[kk]@.post) by {
        assert(bodies_view(bodies@)[kk] == bodies@[kk]@);
        assert(rule@.bodies[kk] == bodies@[kk]@);
    }
    while i < bodies.len()
        invariant
            rv == rules_view(rules@),
            wf_rules(rv),
            k >= 0,
            fuel > 0,
            steps <= fuel,
            forall|kk: int| 0 <= kk < bodies@.len() ==> wf_post(#[trigger] bodies@[kk]@.post),
            forall|m: int| 0 <= m < out@.len() ==> plain(#[trigger] out@[m]@) && out@[m]@.len() <= k,
            target == fk_loop(rv, rule@.head, bodies_view(bodies@), i as int, k as int, have1 as int, cycle as int, strs_view(out@), fuel as nat, steps as nat),
        decreases fuel - steps,
    {
        if steps >= fuel {
            return None;
        }
        let b = bodies[i].clone();
        assert(bodies_view(bodies@)[i as int] == b@);
        assert(wf_post(bodies@[i as int]@.post));
        match scan_body(&rules, &rule.head, &b.post, k, have1, cycle) {
            ScanOut::Done(terminal, n_char, c2) => {
                if terminal && !inside(n_char.clone(), clone_strs(&out)) {
                    let ghost prev = strs_view(out@);
                    out.push(n_char);
                    assert(strs_view(out@) =~= prev.push(n_char@));
                }
                cycle = c2;
            },
            ScanOut::Expand(n_char, c2, nr, nxt, have) => {
                match first_k(clone_rules(&rules), nr, k, have, c2, fuel - 1) {
                    None => {
                        return None;
                    },
                    Some(pref) => {
                        let n = char_len(&b.post);
                        let rest = substring(&b.post, nxt, n);
                        let ghost b0 = bodies_view(bodies@);
                        let mut m: usize = 0;
                        while m < pref.len()
                            invariant
                                0 <= m <= pref.len(),
                                bodies_view(bodies@) == b0 + expand_bodies(strs_view(pref@).take(m as int), b@.pre, n_char@, rest@),
                                forall|kk: int| 0 <= kk < bodies@.len() ==> wf_post(#[trigger] bodies@[kk]@.post),
                            decreases pref.len() - m,
                        {
                            let mut post = char_string('.');
                            push_str(&mut post, &n_char);
                            push_str(&mut post, &pref[m]);
                            push_str(&mut post, &rest);
                            assert(plain(pref@[m as int]@));
                            assert(plain(n_char@ + pref@[m as int]@)) by {
                                let x = n_char@ + pref@[m as int]@;
                                assert forall|q: int| 0 <= q < x.len() implies #[trigger] x[q] != '[' && x[q] != ']' && x[q] != '$' && '\0' <= x[q] <= '\u{7f}' by {
                                    if q < n_char@.len() {
                                        assert(x[q] == n_char@[q]);
                                    } else {
                                        assert(x[q] == pref@[m as int]@[q - n_char@.len()]);
                                    }
                                }
                            }
                            proof {
                                lemma_expand_wf(n_char@ + pref@[m as int]@, b@.post, nxt as int);
                            }
                            assert(post@ =~= seq!['.'] + (n_char@ + pref@[m as int]@) + b@.post.subrange(nxt as int, b@.post.len() as int));
                            assert(post@ =~= seq!['.'] + n_char@ + pref@[m as int]@ + rest@);
                            let ghost prev = bodies_view(bodies@);
                            bodies.push(Rule_body { pre: b.pre.clone(), post });
                            assert(strs_view(pref@).take(m + 1) =~= strs_view(pref@).take(m as int).push(pref@[m as int]@));
                            assert(expand_bodies(strs_view(pref@).take(m + 1), b@.pre, n_char@, rest@)
                                =~= expand_bodies(strs_view(pref@).take(m as int), b@.pre, n_char@, rest@).push(BodyV { pre: b@.pre, post: post@ }));
                            assert(bodies_view(bodies@) =~= prev.push(BodyV { pre: b@.pre, post: post@ }));
                            m += 1;
                        }
                        assert(strs_view(pref@).take(m as int) =~= strs_view(pref@));
                    },
                }
                cycle = c2;
            },
            ScanOut::Overflow => {
                return None;
            },
        }
        i += 1;
        steps += 1;
    }
    Some(out)
}


/// The lookahead strings that may follow a nonterminal `head`.
pub struct FOLLOW {
    pub head: String,
    pub bodies: Vec<String>,
}

#[verifier::ext_equal]
pub struct FollowV {
    pub head: Seq<char>,
    pub bodies: Seq<Seq<char>>,
}

impl View for FOLLOW {
    type V = FollowV;

    open spec fn view(&self) -> FollowV {
        FollowV { head: self.head@, bodies: strs_view(self.bodies@) }
    }
}

pub open spec fn follows_view(fs: Seq<FOLLOW>) -> Seq<FollowV> {
    fs.map_values(|f: FOLLOW| f@)
}

impl Clone for FOLLOW {
    fn clone(&self) -> (res: Self)
        ensures
            res@ == self@,
    {
        FOLLOW { head: self.head.clone(), bodies: clone_strs(&self.bodies) }
    }
}

/// A copy of a list of FOLLOW sets.
pub fn clone_follows(fs: &Vec<FOLLOW>) -> (res: Vec<FOLLOW>)
    ensures
        follows_view(res@) == follows_view(fs@),
{
    let res = fs.clone();
    assert(follows_view(res@) =~= follows_view(fs@));
    res
}

/// `bs` followed by the strings of `new` that are not yet among them, each
/// checked against the list as it grows.
pub open spec fn add_missing(bs: Seq<Seq<char>>, new: Seq<Seq<char>>) -> Seq<Seq<char>> {
    new.fold_left(bs, |acc: Seq<Seq<char>>, x: Seq<char>| if acc.contains(x) { acc } else { acc.push(x) })
}

/// The position of the first set at or after `i` for `h` (`out.len()` when
/// none).
pub open spec fn follow_index(out: Seq<FollowV>, h: Seq<char>, i: int) -> int
    decreases out.len() - i,
{
    if i < 0 || i >= out.len() {
        out.len() as int
    } else if out[i].head == h {
        i
    } else {
        follow_index(out, h, i + 1)
    }
}

proof fn lemma_follow_index(out: Seq<FollowV>, h: Seq<char>, i: int)
    requires
        0 <= i,
    ensures
        follow_index(out, h, i) <= out.len(),
        follow_index(out, h, i) < out.len() ==> i <= follow_index(out, h, i) && out[follow_index(out, h, i)].head == h,
        forall|j: int| i <= j < follow_index(out, h, i) ==> out[j].head != h,
    decreases out.len() - i,
{
    if i < out.len() && out[i].head != h {
        lemma_follow_index(out, h, i + 1);
    }
}

/// Adds the strings `fs` to the set for `h`, or adds a set for `h`.
pub open spec fn append_follow_spec(h: Seq<char>, fs: Seq<Seq<char>>, out: Seq<FollowV>) -> Seq<FollowV> {
    let i = follow_index(out, h, 0);
    if i < out.len() {
        out.update(i, FollowV { head: out[i].head, bodies: add_missing(out[i].bodies, fs) })
    } else {
        out.push(FollowV { head: h, bodies: fs })
    }
}

/// Adds the strings `follows` to the FOLLOW set of `head`.
#[verifier::loop_isolation(false)]
pub fn append_follow(head: String, follows: Vec<String>, out: Vec<FOLLOW>) -> (res: Vec<FOLLOW>)
    ensures
        follows_view(res@) == append_follow_spec(head@, strs_view(follows@), follows_view(out@)),
{
    let ghost o0 = follows_view(out@);
    let ghost fs = strs_view(follows@);
    let mut out = out;
    proof {
        lemma_follow_index(o0, head@, 0);
    }
    let mut i: usize = 0;
    while i < out.len()
        invariant
            follows_view(out@) == o0,
            i <= out.len(),
            forall|j: int| 0 <= j < i ==> o0[j].head != head@,
        decreases out.len() - i,
    {
        assert(o0[i as int] == out@[i as int]@);
        if out[i].head == head {
            assert(follow_index(o0, head@, 0) == i);
            let mut f = out[i].clone();
            let ghost b0 = strs_view(f.bodies@);
            let mut j: usize = 0;
            while j < follows.len()
                invariant
                    f.head@ == o0[i as int].head,
                    j <= follows.len(),
                    strs_view(f.bodies@) == add_missing(b0, fs.take(j as int)),
                decreases follows.len() - j,
            {
                assert(fs.take(j + 1).drop_last() =~= fs.take(j as int));
                assert(fs.take(j + 1).last() == follows@[j as int]@);
                if !inside(follows[j].clone(), clone_strs(&f.bodies)) {
                    let ghost prev = strs_view(f.bodies@);
                    f.bodies.push(follows[j].clone());
                    assert(strs_view(f.bodies@) =~= prev.push(follows@[j as int]@));
                }
                j += 1;
            }
            assert(fs.take(j as int) =~= fs);
            out.set(i, f);
            assert(follows_view(out@) =~= append_follow_spec(head@, fs, o0));
            return out;
        }
        i += 1;
    }
    let ghost prev = follows_view(out@);
    out.push(FOLLOW { head, bodies: follows });
    assert(follows_view(out@) =~= append_follow_spec(head@, fs, o0));
    out
}

/// The first `min(k, |a|)` characters of `a`, then as many characters of `b`
/// as fit in `k`, then the end marker.
pub open spec fn join_k(a: Seq<char>, b: Seq<char>, k: int) -> Seq<char> {
    let p1 = if k <= 0 { 0 } else if k < a.len() { k } else { a.len() as int };
    let r = k - p1;
    let p2 = if r <= 0 { 0 } else if r < b.len() { r } else { b.len() as int };
    a.take(p1) + b.take(p2) + seq!['$']
}

pub open spec fn combine_row(acc: Seq<Seq<char>>, x: Seq<char>, bs: Seq<Seq<char>>, k: int) -> Seq<Seq<char>>
    decreases bs.len(),
{
    if bs.len() == 0 {
        acc
    } else {
        let a = combine_row(acc, x, bs.drop_last(), k);
        let s = join_k(x, bs.last(), k);
        if a.contains(s) {
            a
        } else {
            a.push(s)
        }
    }
}

/// Every string of `xs` joined with every string of `bs` (see [`join_k`]),
/// each result once, in order.
pub open spec fn combine(acc: Seq<Seq<char>>, xs: Seq<Seq<char>>, bs: Seq<Seq<char>>, k: int) -> Seq<Seq<char>>
    decreases xs.len(),
{
    if xs.len() == 0 {
        acc
    } else {
        combine_row(combine(acc, xs.drop_last(), bs, k), xs.last(), bs, k)
    }
}

/// From the `i`-th set on: each set for `to` becomes its strings joined with
/// those of the first set for `from`.
pub open spec fn append_follows_from(to: Seq<char>, from: Seq<char>, out: Seq<FollowV>, k: int, i: int) -> Seq<FollowV>
    decreases out.len() - i,
{
    if i < 0 || i >= out.len() {
        out
    } else if out[i].head == to {
        let j = follow_index(out, from, 0);
        let out2 = if j < out.len() {
            out.update(i, FollowV { head: out[i].head, bodies: combine(Seq::empty(), out[i].bodies, out[j].bodies, k) })
        } else {
            out
        };
        append_follows_from(to, from, out2, k, i + 1)
    } else {
        append_follows_from(to, from, out, k, i + 1)
    }
}

/// Every string of the FOLLOW sets is ASCII and not longer than `i32::MAX`.
pub open spec fn follows_ok(out: Seq<FollowV>) -> bool {
    forall|i: int, j: int| 0 <= i < out.len() && 0 <= j < out[i].bodies.len() ==>
        is_ascii_chars(#[trigger] out[i].bodies[j]) && out[i].bodies[j].len() <= i32::MAX
}

/// The strings `x` joined with each string of `bs`, added to `acc`.
fn combine_row_exec(acc: Vec<String>, x: &String, bs: &Vec<String>, k: i32) -> (res: Vec<String>)
    requires
        is_ascii_chars(x@),
        x@.len() <= i32::MAX,
        forall|j: int| 0 <= j < bs@.len() ==> is_ascii_chars(#[trigger] bs@[j]@) && bs@[j]@.len() <= i32::MAX,
    ensures
        strs_view(res@) == combine_row(strs_view(acc@), x@, strs_view(bs@), k as int),
{
    let ghost bv = strs_view(bs@);
    let mut acc = acc;
    let ghost a0 = strs_view(acc@);
    let xl = char_len(x);
    let mut jj: usize = 0;
    while jj < bs.len()
        invariant
            bv == strs_view(bs@),
            xl == x@.len(),
            x@.len() <= i32::MAX,
            forall|j: int| 0 <= j < bs@.len() ==> is_ascii_chars(#[trigger] bs@[j]@) && bs@[j]@.len() <= i32::MAX,
            jj <= bs.len(),
            strs_view(acc@) == combine_row(a0, x@, bv.take(jj as int), k as int),
        decreases bs.len() - jj,
    {
        let y = &bs[jj];
        assert(bv[jj as int] == y@);
        assert(y@.len() <= i32::MAX);
        let yl = char_len(y);
        let mut new_body = empty_string();
        let mut iii: i32 = 0;
        while iii < k && (iii as usize) < xl
            invariant
                xl == x@.len(),
                x@.len() <= i32::MAX,
                0 <= iii,
                iii <= k || iii == 0,
                iii as int <= x@.len(),
                new_body@ == x@.take(iii as int),
            decreases xl - iii,
        {
            push_char(&mut new_body, char_at(x, iii as usize));
            assert(x@.take(iii + 1) =~= x@.take(iii as int).push(x@[iii as int]));
            iii += 1;
        }
        let ghost p1 = iii as int;
        assert(p1 == if k <= 0 { 0 } else if k < x@.len() { k as int } else { x@.len() as int });
        let mut jjj: i32 = 0;
        while (iii as i64) + (jjj as i64) < (k as i64) && (jjj as usize) < yl
            invariant
                yl == y@.len(),
                y@.len() <= i32::MAX,
                0 <= jjj,
                iii as int == p1,
                0 <= p1,
                jjj as int <= y@.len(),
                jjj == 0 || p1 + jjj <= k,
                new_body@ == x@.take(p1) + y@.take(jjj as int),
            decreases yl - jjj,
        {
            push_char(&mut new_body, char_at(y, jjj as usize));
            assert(y@.take(jjj + 1) =~= y@.take(jjj as int).push(y@[jjj as int]));
            jjj += 1;
        }
        push_char(&mut new_body, '$');
        assert(new_body@ =~= join_k(x@, y@, k as int));
        assert(bv.take(jj + 1).drop_last() =~= bv.take(jj as int));
        assert(bv.take(jj + 1).last() == y@);
        if !inside(new_body.clone(), clone_strs(&acc)) {
            let ghost prev = strs_view(acc@);
            acc.push(new_body);
            assert(strs_view(acc@) =~= prev.push(join_k(x@, y@, k as int)));
        }
        jj += 1;
    }
    assert(bv.take(jj as int) =~= bv);
    acc
}

/// Every string of `xs` joined with every string of `bs`.
fn combine_exec(xs: &Vec<String>, bs: &Vec<String>, k: i32) -> (res: Vec<String>)
    requires
        forall|j: int| 0 <= j < xs@.len() ==> is_ascii_chars(#[trigger] xs@[j]@) && xs@[j]@.len() <= i32::MAX,
        forall|j: int| 0 <= j < bs@.len() ==> is_ascii_chars(#[trigger] bs@[j]@) && bs@[j]@.len() <= i32::MAX,
    ensures
        strs_view(res@) == combine(Seq::empty(), strs_view(xs@), strs_view(bs@), k as int),
{
    let ghost xv = strs_view(xs@);
    let mut acc: Vec<String> = Vec::new();
    assert(strs_view(acc@) =~= combine(Seq::empty(), xv.take(0), strs_view(bs@), k as int));
    let mut ii: usize = 0;
    while ii < xs.len()
        invariant
            xv == strs_view(xs@),
            forall|j: int| 0 <= j < xs@.len() ==> is_ascii_chars(#[trigger] xs@[j]@) && xs@[j]@.len() <= i32::MAX,
            forall|j: int| 0 <= j < bs@.len() ==> is_ascii_chars(#[trigger] bs@[j]@) && bs@[j]@.len() <= i32::MAX,
            ii <= xs.len(),
            strs_view(acc@) == combine(Seq::empty(), xv.take(ii as int), strs_view(bs@), k as int),
        decreases xs.len() - ii,
    {
        assert(xv.take(ii + 1).drop_last() =~= xv.take(ii as int));
        assert(xv.take(ii + 1).last() == xs@[ii as int]@);
        assert(is_ascii_chars(xs@[ii as int]@));
        acc = combine_row_exec(acc, &xs[ii], bs, k);
        ii += 1;
    }
    assert(xv.take(ii as int) =~= xv);
    acc
}


/// Joins the FOLLOW set of `to_head` with that of `from_head`: every string
/// of the first is extended by every string of the second, up to `k`
/// characters, and ended by `$`.
#[verifier::loop_isolation(false)]
pub fn append_follows(to_head: String, from_head: String, out: Vec<FOLLOW>, k: i32) -> (res: Vec<FOLLOW>)
    requires
        follows_ok(follows_view(out@)),
        k < i32::MAX,
    ensures
        follows_view(res@) == append_follows_from(to_head@, from_head@, follows_view(out@), k as int, 0),
        follows_ok(follows_view(res@)),
{
    let ghost target = append_follows_from(to_head@, from_head@, follows_view(out@), k as int, 0);
    let mut out = out;
    let mut i: usize = 0;
    while i < out.len()
        invariant
            i <= out.len(),
            follows_ok(follows_view(out@)),
            target == append_follows_from(to_head@, from_head@, follows_view(out@), k as int, i as int),
        decreases out.len() - i,
    {
        let ghost ov = follows_view(out@);
        assert(ov[i as int] == out@[i as int]@);
        if out[i].head == to_head {
            proof {
                lemma_follow_index(ov, from_head@, 0);
            }
            let mut j: usize = 0;
            while j < out.len()
                invariant
                    ov == follows_view(out@),
                    j <= out.len(),
                    forall|jj: int| 0 <= jj < j ==> ov[jj].head != from_head@,
                decreases out.len() - j,
            {
                assert(ov[j as int] == out@[j as int]@);
                if out[j].head == from_head {
                    assert(follow_index(ov, from_head@, 0) == j);
                    assert forall|q: int| 0 <= q < out@[i as int].bodies@.len() implies is_ascii_chars(#[trigger] out@[i as int].bodies@[q]@) && out@[i as int].bodies@[q]@.len() <= i32::MAX by {
                        assert(ov[i as int].bodies[q] == out@[i as int].bodies@[q]@);
                    }
                    assert forall|q: int| 0 <= q < out@[j as int].bodies@.len() implies is_ascii_chars(#[trigger] out@[j as int].bodies@[q]@) && out@[j as int].bodies@[q]@.len() <= i32::MAX by {
                        assert(ov[j as int].bodies[q] == out@[j as int].bodies@[q]@);
                    }
                    let new_bodies = combine_exec(&out[i].bodies, &out[j].bodies, k);
                    proof {
                        lemma_combine_ok(Seq::empty(), ov[i as int].bodies, ov[j as int].bodies, k as int);
                    }
                    let h = out[i].head.clone();
                    out.set(i, FOLLOW { head: h, bodies: new_bodies });
                    assert(follows_view(out@) =~= ov.update(i as int, FollowV { head: ov[i as int].head, bodies: combine(Seq::empty(), ov[i as int].bodies, ov[j as int].bodies, k as int) }));
                    assert(follows_ok(follows_view(out@))) by {
                        let nv = follows_view(out@);
                        assert forall|a: int, b: int| 0 <= a < nv.len() && 0 <= b < nv[a].bodies.len() implies is_ascii_chars(#[trigger] nv[a].bodies[b]) && nv[a].bodies[b].len() <= i32::MAX by {
                            if a != i {
                                assert(nv[a] == ov[a]);
                            }
                        }
                    }
                    break;
                }
                j += 1;
            }
        }
        i += 1;
    }
    out
}

proof fn lemma_combine_row_ok(acc: Seq<Seq<char>>, x: Seq<char>, bs: Seq<Seq<char>>, k: int)
    requires
        forall|j: int| 0 <= j < acc.len() ==> is_ascii_chars(#[trigger] acc[j]) && acc[j].len() <= i32::MAX,
        is_ascii_chars(x),
        forall|j: int| 0 <= j < bs.len() ==> is_ascii_chars(#[trigger] bs[j]),
        k < i32::MAX,
    ensures
        forall|j: int| 0 <= j < combine_row(acc, x, bs, k).len() ==> is_ascii_chars(#[trigger] combine_row(acc, x, bs, k)[j]) && combine_row(acc, x, bs, k)[j].len() <= i32::MAX,
    decreases bs.len(),
{
    if bs.len() > 0 {
        let init = bs.drop_last();
        assert forall|j: int| 0 <= j < init.len() implies is_ascii_chars(#[trigger] init[j]) by {
            assert(init[j] == bs[j]);
        }
        lemma_combine_row_ok(acc, x, init, k);
        let y = bs.last();
        assert(is_ascii_chars(bs[bs.len() - 1]));
        let s = join_k(x, y, k);
        assert(is_ascii_chars(s)) by {
            let p1 = if k <= 0 { 0 } else if k < x.len() { k } else { x.len() as int };
            let r = k - p1;
            let p2 = if r <= 0 { 0 } else if r < y.len() { r } else { y.len() as int };
            assert forall|m: int| 0 <= m < s.len() implies '\0' <= #[trigger] s[m] <= '\u{7f}' by {
                if m < p1 {
                    assert(s[m] == x[m]);
                } else if m < p1 + p2 {
                    assert(s[m] == y[m - p1]);
                } else {
                    assert(s[m] == '$');
                }
            }
            assert(s.len() == p1 + p2 + 1);
        }
        assert(s.len() <= i32::MAX);
        let a = combine_row(acc, x, init, k);
        let out = combine_row(acc, x, bs, k);
        assert forall|j: int| 0 <= j < out.len() implies is_ascii_chars(#[trigger] out[j]) && out[j].len() <= i32::MAX by {
            if j < a.len() {
                assert(out[j] == a[j]);
            } else {
                assert(out[j] == s);
            }
        }
    }
}

proof fn lemma_combine_ok(acc: Seq<Seq<char>>, xs: Seq<Seq<char>>, bs: Seq<Seq<char>>, k: int)
    requires
        forall|j: int| 0 <= j < acc.len() ==> is_ascii_chars(#[trigger] acc[j]) && acc[j].len() <= i32::MAX,
        forall|j: int| 0 <= j < xs.len() ==> is_ascii_chars(#[trigger] xs[j]),
        forall|j: int| 0 <= j < bs.len() ==> is_ascii_chars(#[trigger] bs[j]),
        k < i32::MAX,
    ensures
        forall|j: int| 0 <= j < combine(acc, xs, bs, k).len() ==> is_ascii_chars(#[trigger] combine(acc, xs, bs, k)[j]) && combine(acc, xs, bs, k)[j].len() <= i32::MAX,
    decreases xs.len(),
{
    if xs.len() > 0 {
        let init = xs.drop_last();
        assert forall|j: int| 0 <= j < init.len() implies is_ascii_chars(#[trigger] init[j]) by {
            assert(init[j] == xs[j]);
        }
        lemma_combine_ok(acc, init, bs, k);
        assert(is_ascii_chars(xs[xs.len() - 1]));
        lemma_combine_row_ok(combine(acc, init, bs, k), xs.last(), bs, k);
    }
}

/// Every lookahead string of `head` shorter than `k` contains the end marker.
pub open spec fn full_spec(out: Seq<FollowV>, head: Seq<char>, k: int) -> bool {
    forall|i: int, j: int| 0 <= i < out.len() && 0 <= j < out[i].bodies.len() && out[i].head == head
        && #[trigger] out[i].bodies[j].len() < k ==> out[i].bodies[j].contains('$')
}

/// Whether every lookahead string of `head` shorter than `k` already ends the
/// input (contains `$`).
pub fn full(out: Vec<FOLLOW>, head: String, k: i32) -> (res: bool)
    requires
        follows_ok(follows_view(out@)),
        k >= 0 || forall|i: int| 0 <= i < out@.len() && out@[i]@.head == head@ ==> out@[i]@.bodies.len() == 0,
    ensures
        res == full_spec(follows_view(out@), head@, k as int),
{
    let ghost ov = follows_view(out@);
    let mut i: usize = 0;
    while i < out.len()
        invariant
            ov == follows_view(out@),
            follows_ok(ov),
            k >= 0 || forall|i: int| 0 <= i < out@.len() && out@[i]@.head == head@ ==> out@[i]@.bodies.len() == 0,
            i <= out.len(),
            forall|a: int, b: int| 0 <= a < i && 0 <= b < ov[a].bodies.len() && ov[a].head == head@
                && #[trigger] ov[a].bodies[b].len() < k ==> ov[a].bodies[b].contains('$'),
        decreases out.len() - i,
    {
        assert(ov[i as int] == out@[i as int]@);
        if out[i].head == head {
            let mut j: usize = 0;
            while j < out[i].bodies.len()
                invariant
                    ov == follows_view(out@),
                    follows_ok(ov),
                    i < out.len(),
                    ov[i as int] == out@[i as int]@,
                    ov[i as int].head == head@,
                    k >= 0 || ov[i as int].bodies.len() == 0,
                    j <= ov[i as int].bodies.len(),
                    forall|a: int, b: int| 0 <= a < i && 0 <= b < ov[a].bodies.len() && ov[a].head == head@
                        && #[trigger] ov[a].bodies[b].len() < k ==> ov[a].bodies[b].contains('$'),
                    forall|b: int| 0 <= b < j && #[trigger] ov[i as int].bodies[b].len() < k ==> ov[i as int].bodies[b].contains('$'),
                decreases ov[i as int].bodies.len() - j,
            {
                let body = &out[i].bodies[j];
                assert(ov[i as int].bodies[j as int] == body@);
                let n = char_len(body);
                if n < k as usize {
                    let mut passed = false;
                    let mut ii: usize = 0;
                    while ii < n
                        invariant
                            n == body@.len(),
                            ii <= n,
                            passed == body@.take(ii as int).contains('$'),
                        decreases n - ii,
                    {
                        if char_at(body, ii) == '$' {
                            passed = true;
                        }
                        assert(body@.take(ii + 1) =~= body@.take(ii as int).push(body@[ii as int]));
                        proof {
                            vstd::seq_lib::lemma_seq_contains_after_push(body@.take(ii as int), body@[ii as int], '$');
                        }
                        ii += 1;
                    }
                    assert(body@.take(n as int) =~= body@);
                    if !passed {
                        return false;
                    }
                }
                j += 1;
            }
        }
        i += 1;
    }
    true
}

/// The string cut before its first `$` and after at most `k` characters.
pub open spec fn cut_at(s: Seq<char>, k: int) -> Seq<char> {
    s.take(cut_len(s, k, 0))
}

/// The number of characters kept by [`cut_at`], counting from `i`.
pub open spec fn cut_len(s: Seq<char>, k: int, i: int) -> int
    decreases s.len() - i,
{
    if i < 0 || i >= k || i >= s.len() || s[i] == '$' {
        i
    } else {
        cut_len(s, k, i + 1)
    }
}

/// Reading stops at `$` or after `k` characters before the string ends.
pub open spec fn cuttable(s: Seq<char>, k: int) -> bool {
    s.contains('$') || k <= s.len()
}

proof fn lemma_cut_len(s: Seq<char>, k: int, i: int)
    requires
        0 <= i,
        i <= k,
        i <= s.len(),
        forall|m: int| 0 <= m < i ==> s[m] != '$',
    ensures
        i <= cut_len(s, k, i) <= s.len(),
        cut_len(s, k, i) <= k,
        forall|m: int| 0 <= m < cut_len(s, k, i) ==> s[m] != '$',
        cut_len(s, k, i) < s.len() && cut_len(s, k, i) < k ==> s[cut_len(s, k, i)] == '$',
    decreases s.len() - i,
{
    if i < k && i < s.len() && s[i] != '$' {
        lemma_cut_len(s, k, i + 1);
    }
}

/// Cuts a string as [`cut_at`] does.
#[verifier::loop_isolation(false)]
fn cut_string(s: &String, k: usize) -> (res: String)
    requires
        cuttable(s@, k as int),
    ensures
        res@ == cut_at(s@, k as int),
{
    let mut out = empty_string();
    let mut j: usize = 0;
    let n = char_len(s);
    proof {
        lemma_cut_len(s@, k as int, 0);
    }
    let ghost c = cut_len(s@, k as int, 0);
    assert(j < k && j >= n ==> false) by {
        if j < k && j >= n {
            assert(!s@.contains('$'));
        }
    }
    while j < k && char_at_checked(s, j, n) != '$'
        invariant
            j < k ==> j < n,
            n == s@.len(),
            j <= c,
            c == cut_len(s@, k as int, j as int),
            cuttable(s@, k as int),
            0 <= c <= n,
            out@ == s@.take(j as int),
        decreases n - j,
    {
        push_char(&mut out, char_at(s, j));
        assert(s@.take(j + 1) =~= s@.take(j as int).push(s@[j as int]));
        j += 1;
        assert(j < k ==> j < n) by {
            if j < k && j >= n {
                assert forall|m: int| 0 <= m < n implies s@[m] != '$' by {}
                assert(!s@.contains('$'));
            }
        }
    }
    assert(j == c);
    out
}

/// The `j`-th character of `s` (`n` is its length), which exists while a
/// cuttable string is read.
fn char_at_checked(s: &String, j: usize, n: usize) -> (c: char)
    requires
        n == s@.len(),
        j < s@.len(),
    ensures
        c == s@[j as int],
{
    char_at(s, j)
}


/// Each string cut by [`cut_at`] and ended by `$`, each result once.
pub open spec fn cut_all(acc: Seq<Seq<char>>, bs: Seq<Seq<char>>, k: int) -> Seq<Seq<char>>
    decreases bs.len(),
{
    if bs.len() == 0 {
        acc
    } else {
        let a = cut_all(acc, bs.drop_last(), k);
        let s = cut_at(bs.last(), k).push('$');
        if a.contains(s) {
            a
        } else {
            a.push(s)
        }
    }
}

/// The set of the start symbol `S` is kept; the strings of the others are cut
/// to `k` characters and ended by `$`.
pub open spec fn filter_follow(f: FollowV, k: int) -> FollowV {
    if f.head == seq!['S'] {
        f
    } else {
        FollowV { head: f.head, bodies: cut_all(Seq::empty(), f.bodies, k) }
    }
}

pub open spec fn filter_spec(fs: Seq<FollowV>, k: int) -> Seq<FollowV> {
    fs.map_values(|f: FollowV| filter_follow(f, k))
}

/// The strings that `filter` cuts can be cut.
pub open spec fn filter_ok(fs: Seq<FollowV>, k: int) -> bool {
    forall|i: int, j: int| 0 <= i < fs.len() && 0 <= j < fs[i].bodies.len() && fs[i].head != seq!['S']
        ==> cuttable(#[trigger] fs[i].bodies[j], k)
}

/// Cuts the lookahead strings of every nonterminal but `S` to `k` characters.
pub fn filter(follows: Vec<FOLLOW>, k: usize) -> (res: Vec<FOLLOW>)
    requires
        filter_ok(follows_view(follows@), k as int),
    ensures
        follows_view(res@) == filter_spec(follows_view(follows@), k as int),
{
    let ghost fv = follows_view(follows@);
    let mut new_follows: Vec<FOLLOW> = Vec::new();
    let mut i: usize = 0;
    while i < follows.len()
        invariant
            fv == follows_view(follows@),
            filter_ok(fv, k as int),
            i <= follows.len(),
            follows_view(new_follows@) == filter_spec(fv, k as int).take(i as int),
        decreases follows.len() - i,
    {
        assert(fv[i as int] == follows@[i as int]@);
        let ghost prev = follows_view(new_follows@);
        let s_head = char_string('S');
        if follows[i].head == s_head {
            new_follows.push(follows[i].clone());
            assert(filter_spec(fv, k as int)[i as int] == filter_follow(fv[i as int], k as int));
            assert(filter_spec(fv, k as int).take(i + 1) =~= filter_spec(fv, k as int).take(i as int).push(fv[i as int]));
            assert(follows_view(new_follows@) =~= prev.push(fv[i as int]));
            i += 1;
            continue;
        }
        let ghost bs = fv[i as int].bodies;
        let mut new_bodies: Vec<String> = Vec::new();
        assert(strs_view(new_bodies@) =~= cut_all(Seq::empty(), bs.take(0), k as int));
        let mut j: usize = 0;
        while j < follows[i].bodies.len()
            invariant
                fv == follows_view(follows@),
                filter_ok(fv, k as int),
                i < follows.len(),
                fv[i as int].head != seq!['S'],
                bs == fv[i as int].bodies,
                bs == strs_view(follows@[i as int].bodies@),
                j <= bs.len(),
                strs_view(new_bodies@) == cut_all(Seq::empty(), bs.take(j as int), k as int),
            decreases bs.len() - j,
        {
            assert(bs[j as int] == follows@[i as int].bodies@[j as int]@);
            assert(cuttable(fv[i as int].bodies[j as int], k as int));
            let mut nb = cut_string(&follows[i].bodies[j], k);
            push_char(&mut nb, '$');
            assert(bs.take(j + 1).drop_last() =~= bs.take(j as int));
            assert(bs.take(j + 1).last() == bs[j as int]);
            if !inside(nb.clone(), clone_strs(&new_bodies)) {
                let ghost pv = strs_view(new_bodies@);
                new_bodies.push(nb);
                assert(strs_view(new_bodies@) =~= pv.push(cut_at(bs[j as int], k as int).push('$')));
            }
            j += 1;
        }
        assert(bs.take(j as int) =~= bs);
        let ghost nbv = strs_view(new_bodies@);
        new_follows.push(FOLLOW { head: follows[i].head.clone(), bodies: new_bodies });
        assert(filter_spec(fv, k as int)[i as int] == filter_follow(fv[i as int], k as int));
        assert(filter_follow(fv[i as int], k as int) =~= FollowV { head: fv[i as int].head, bodies: nbv });
        assert(filter_spec(fv, k as int).take(i + 1) =~= filter_spec(fv, k as int).take(i as int).push(FollowV { head: fv[i as int].head, bodies: nbv }));
        assert(follows_view(new_follows@) =~= prev.push(FollowV { head: fv[i as int].head, bodies: nbv }));
        i += 1;
    }
    assert(filter_spec(fv, k as int).take(i as int) =~= filter_spec(fv, k as int));
    new_follows
}

/// The lookahead strings of the first set for `head`, or one empty string
/// when there is none.
pub open spec fn get_follows_spec(fs: Seq<FollowV>, head: Seq<char>) -> Seq<Seq<char>> {
    let i = follow_index(fs, head, 0);
    if i < fs.len() {
        fs[i].bodies
    } else {
        seq![Seq::<char>::empty()]
    }
}

/// The FOLLOW set of `head`.
pub fn get_follows(follows: Vec<FOLLOW>, head: String) -> (res: Vec<String>)
    ensures
        strs_view(res@) == get_follows_spec(follows_view(follows@), head@),
{
    let ghost fv = follows_view(follows@);
    proof {
        lemma_follow_index(fv, head@, 0);
    }
    let mut i: usize = 0;
    while i < follows.len()
        invariant
            fv == follows_view(follows@),
            i <= follows.len(),
            forall|j: int| 0 <= j < i ==> fv[j].head != head@,
            follow_index(fv, head@, 0) <= fv.len(),
            follow_index(fv, head@, 0) < fv.len() ==> fv[follow_index(fv, head@, 0)].head == head@,
            forall|j: int| 0 <= j < follow_index(fv, head@, 0) ==> fv[j].head != head@,
        decreases follows.len() - i,
    {
        assert(fv[i as int] == follows@[i as int]@);
        if follows[i].head == head {
            proof {
                lemma_follow_index(fv, head@, 0);
                let fi = follow_index(fv, head@, 0);
                if fi < i {
                    assert(fv[fi].head == head@);
                }
            }
            assert(follow_index(fv, head@, 0) == i);
            return clone_strs(&follows[i].bodies);
        }
        i += 1;
    }
    let res = vec![empty_string()];
    assert(strs_view(res@) =~= seq![Seq::<char>::empty()]);
    res
}

pub open spec fn filter_strs_spec(list: Seq<Seq<char>>, k: int) -> Seq<Seq<char>> {
    list.map_values(|s: Seq<char>| cut_at(s, k))
}

/// Cuts every string before its `$` and after at most `k` characters.
pub fn filter_strs(list: Vec<String>, k: usize) -> (res: Vec<String>)
    requires
        forall|i: int| 0 <= i < list@.len() ==> cuttable(#[trigger] list@[i]@, k as int),
    ensures
        strs_view(res@) == filter_strs_spec(strs_view(list@), k as int),
{
    let mut new_list: Vec<String> = Vec::new();
    let mut i: usize = 0;
    while i < list.len()
        invariant
            forall|i: int| 0 <= i < list@.len() ==> cuttable(#[trigger] list@[i]@, k as int),
            i <= list.len(),
            strs_view(new_list@) == filter_strs_spec(strs_view(list@), k as int).take(i as int),
        decreases list.len() - i,
    {
        let l = cut_string(&list[i], k);
        let ghost prev = strs_view(new_list@);
        new_list.push(l);
        assert(filter_strs_spec(strs_view(list@), k as int)[i as int] == cut_at(list@[i as int]@, k as int));
        assert(filter_strs_spec(strs_view(list@), k as int).take(i + 1) =~= filter_strs_spec(strs_view(list@), k as int).take(i as int).push(cut_at(list@[i as int]@, k as int)));
        assert(strs_view(new_list@) =~= prev.push(l@));
        i += 1;
    }
    assert(filter_strs_spec(strs_view(list@), k as int).take(i as int) =~= filter_strs_spec(strs_view(list@), k as int));
    new_list
}


/// The FOLLOW sets at the start: the start symbol `S` is followed by the end
/// of the input.
pub open spec fn initial_follows() -> Seq<FollowV> {
    seq![FollowV { head: seq!['S'], bodies: seq![seq!['$']] }]
}

/// Reads item text `post` from position `ii`: for every nonterminal met, the
/// FIRST_k strings of what follows it (an item of rule `head`) are added to
/// its FOLLOW set.
pub open spec fn fol_scan(rules: Seq<RuleV>, head: Seq<char>, post: Seq<char>, ii: int, kk: int, out: Seq<FollowV>, fuel: nat) -> Option<Seq<FollowV>>
    decreases post.len() - ii,
{
    if ii < 1 || ii >= post.len() || post[ii] == '$' {
        Some(out)
    } else if post[ii] == '[' {
        let c = close_from(post, ii + 1);
        let nxt = c + 1;
        if nxt <= ii || nxt > post.len() {
            Some(out)
        } else {
            let nn = RuleV { head, bodies: seq![BodyV { pre: Seq::empty(), post: seq!['.'] + post.subrange(nxt, post.len() as int) }] };
            match first_k_spec(rules, nn, kk, 0, 0, fuel) {
                None => None,
                Some(f) => fol_scan(rules, head, post, nxt, kk, append_follow_spec(post.subrange(ii + 1, c), f, out), fuel),
            }
        }
    } else {
        fol_scan(rules, head, post, ii + 1, kk, out, fuel)
    }
}

pub open spec fn fol_bodies(rules: Seq<RuleV>, head: Seq<char>, bs: Seq<BodyV>, kk: int, out: Seq<FollowV>, fuel: nat) -> Option<Seq<FollowV>>
    decreases bs.len(),
{
    if bs.len() == 0 {
        Some(out)
    } else {
        match fol_bodies(rules, head, bs.drop_last(), kk, out, fuel) {
            None => None,
            Some(o) => fol_scan(rules, head, bs.last().post, 1, kk, o, fuel),
        }
    }
}

pub open spec fn fol_rules(rules: Seq<RuleV>, rs: Seq<RuleV>, kk: int, out: Seq<FollowV>, fuel: nat) -> Option<Seq<FollowV>>
    decreases rs.len(),
{
    if rs.len() == 0 {
        Some(out)
    } else {
        match fol_rules(rules, rs.drop_last(), kk, out, fuel) {
            None => None,
            Some(o) => fol_bodies(rules, rs.last().head, rs.last().bodies, kk, o, fuel),
        }
    }
}

/// The first pass over all items, repeated `n` times.
pub open spec fn fol_repeat(rules: Seq<RuleV>, n: nat, kk: int, out: Seq<FollowV>, fuel: nat) -> Option<Seq<FollowV>>
    decreases n,
{
    if n == 0 {
        Some(out)
    } else {
        match fol_repeat(rules, (n - 1) as nat, kk, out, fuel) {
            None => None,
            Some(o) => fol_rules(rules, rules, kk, o, fuel),
        }
    }
}

/// Reads item text `post` of rule `head` from position `ii`: the FOLLOW set of
/// every nonterminal met is joined with that of `head` (except a
/// nonterminal equal to `head` whose set is already full).
pub open spec fn join_scan(head: Seq<char>, post: Seq<char>, ii: int, kk: int, out: Seq<FollowV>) -> Seq<FollowV>
    decreases post.len() - ii,
{
    if ii < 1 || ii >= post.len() || post[ii] == '$' {
        out
    } else if post[ii] == '[' {
        let c = close_from(post, ii + 1);
        let nxt = c + 1;
        if nxt <= ii || nxt > post.len() {
            out
        } else {
            let name = post.subrange(ii + 1, c);
            let out2 = if name != head || !full_spec(out, head, kk) {
                append_follows_from(name, head, out, kk, 0)
            } else {
                out
            };
            join_scan(head, post, nxt, kk, out2)
        }
    } else {
        join_scan(head, post, ii + 1, kk, out)
    }
}

pub open spec fn join_bodies(head: Seq<char>, bs: Seq<BodyV>, kk: int, out: Seq<FollowV>) -> Seq<FollowV>
    decreases bs.len(),
{
    if bs.len() == 0 {
        out
    } else {
        join_scan(head, bs.last().post, 1, kk, join_bodies(head, bs.drop_last(), kk, out))
    }
}

pub open spec fn join_rules(rs: Seq<RuleV>, kk: int, out: Seq<FollowV>) -> Seq<FollowV>
    decreases rs.len(),
{
    if rs.len() == 0 {
        out
    } else {
        join_bodies(rs.last().head, rs.last().bodies, kk, join_rules(rs.drop_last(), kk, out))
    }
}

/// The FOLLOW_k sets of the nonterminals of `rules`: a first pass (repeated
/// once per rule) adds the FIRST_k strings of what follows each nonterminal
/// in each item, a second pass joins each with the FOLLOW set of the rule it
/// occurs in. `None` when a FIRST_k computation runs out of `fuel`.
pub open spec fn follow_k_spec(rules: Seq<RuleV>, kk: int, fuel: nat) -> Option<Seq<FollowV>> {
    match fol_repeat(rules, rules.len(), kk, initial_follows(), fuel) {
        None => None,
        Some(o) => Some(join_rules(rules, kk, o)),
    }
}

proof fn lemma_append_follow_ok(h: Seq<char>, fs: Seq<Seq<char>>, out: Seq<FollowV>)
    requires
        follows_ok(out),
        forall|m: int| 0 <= m < fs.len() ==> is_ascii_chars(#[trigger] fs[m]) && fs[m].len() <= i32::MAX,
    ensures
        follows_ok(append_follow_spec(h, fs, out)),
{
    lemma_follow_index(out, h, 0);
    let i = follow_index(out, h, 0);
    if i < out.len() {
        lemma_add_missing_ok(out[i].bodies, fs);
        let o2 = append_follow_spec(h, fs, out);
        assert forall|a: int, b: int| 0 <= a < o2.len() && 0 <= b < o2[a].bodies.len() implies is_ascii_chars(#[trigger] o2[a].bodies[b]) && o2[a].bodies[b].len() <= i32::MAX by {
            if a != i {
                assert(o2[a] == out[a]);
            }
        }
    } else {
        let o2 = append_follow_spec(h, fs, out);
        assert forall|a: int, b: int| 0 <= a < o2.len() && 0 <= b < o2[a].bodies.len() implies is_ascii_chars(#[trigger] o2[a].bodies[b]) && o2[a].bodies[b].len() <= i32::MAX by {
            if a < out.len() {
                assert(o2[a] == out[a]);
            }
        }
    }
}

proof fn lemma_add_missing_ok(bs: Seq<Seq<char>>, fs: Seq<Seq<char>>)
    requires
        forall|m: int| 0 <= m < bs.len() ==> is_ascii_chars(#[trigger] bs[m]) && bs[m].len() <= i32::MAX,
        forall|m: int| 0 <= m < fs.len() ==> is_ascii_chars(#[trigger] fs[m]) && fs[m].len() <= i32::MAX,
    ensures
        forall|m: int| 0 <= m < add_missing(bs, fs).len() ==> is_ascii_chars(#[trigger] add_missing(bs, fs)[m]) && add_missing(bs, fs)[m].len() <= i32::MAX,
    decreases fs.len(),
{
    if fs.len() > 0 {
        let init = fs.drop_last();
        assert forall|m: int| 0 <= m < init.len() implies is_ascii_chars(#[trigger] init[m]) && init[m].len() <= i32::MAX by {
            assert(init[m] == fs[m]);
        }
        lemma_add_missing_ok(bs, init);
        assert(add_missing(bs, fs) == {
            let acc = add_missing(bs, init);
            if acc.contains(fs.last()) { acc } else { acc.push(fs.last()) }
        });
        assert(is_ascii_chars(fs[fs.len() - 1]));
    }
}

/// The first pass over one item text (see [`fol_scan`]).
#[verifier::loop_isolation(false)]
fn fol_scan_exec(rules: &Vec<Rule>, head: &String, post: &String, kk: i32, out: Vec<FOLLOW>, fuel: usize) -> (res: Option<Vec<FOLLOW>>)
    requires
        wf_rules(rules_view(rules@)),
        wf_post(post@),
        0 <= kk < i32::MAX,
        follows_ok(follows_view(out@)),
    ensures
        match fol_scan(rules_view(rules@), head@, post@, 1, kk as int, follows_view(out@), fuel as nat) {
            None => res is None,
            Some(o) => res matches Some(v) && follows_view(v@) == o,
        },
        res matches Some(v) ==> follows_ok(follows_view(v@)),
{
    let ghost rv = rules_view(rules@);
    let ghost p = post@;
    let ghost target = fol_scan(rv, head@, p, 1, kk as int, follows_view(out@), fuel as nat);
    let n = char_len(post);
    let mut out = out;
    let mut ii: usize = 1;
    loop
        invariant
            n == p.len(),
            1 <= ii,
            word_from(p, ii as int),
            follows_ok(follows_view(out@)),
            target == fol_scan(rv, head@, p, ii as int, kk as int, follows_view(out@), fuel as nat),
        decreases n - ii,
    {
        assert(ii < n) by {
            if ii >= n {
                assert(!word_from(p, ii as int));
            }
        }
        let c = char_at(post, ii);
        if c == '$' {
            return Some(out);
        }
        if c == '[' {
            let start = ii + 1;
            proof {
                lemma_close_from(p, start as int);
            }
            let ghost cl = close_from(p, start as int);
            let mut j: usize = start;
            let mut name = empty_string();
            while char_at(post, j) != ']'
                invariant
                    n == p.len(),
                    start <= j <= cl,
                    cl < p.len() - 1,
                    forall|m: int| start <= m < cl ==> p[m] != ']',
                    p[cl] == ']',
                    name@ == p.subrange(start as int, j as int),
                decreases cl - j,
            {
                push_char(&mut name, char_at(post, j));
                assert(p.subrange(start as int, j + 1) =~= p.subrange(start as int, j as int).push(p[j as int]));
                j += 1;
            }
            ii = j + 1;
            let rest = substring(post, ii, n);
            let mut np = char_string('.');
            push_str(&mut np, &rest);
            let ghost q = np@;
            proof {
                lemma_word_from_offset(p, q, ii as int, 1 - ii);
            }
            assert(is_ascii_chars(q)) by {
                assert forall|m: int| 0 <= m < q.len() implies '\0' <= #[trigger] q[m] <= '\u{7f}' by {
                    if m > 0 {
                        assert(q[m] == p[m - 1 + ii]);
                    }
                }
            }
            let nn = Rule { head: head.clone(), bodies: vec![Rule_body { pre: empty_string(), post: np }] };
            assert(nn@.bodies =~= seq![BodyV { pre: Seq::empty(), post: q }]);
            match first_k(clone_rules(rules), nn, kk, 0, 0, fuel) {
                None => {
                    return None;
                },
                Some(firsts) => {
                    proof {
                        lemma_append_follow_ok(name@, strs_view(firsts@), follows_view(out@));
                    }
                    out = append_follow(name, firsts, out);
                },
            }
            continue;
        }
        ii += 1;
    }
}

/// The second pass over one item text (see [`join_scan`]).
#[verifier::loop_isolation(false)]
fn join_scan_exec(head: &String, post: &String, kk: i32, out: Vec<FOLLOW>) -> (res: Vec<FOLLOW>)
    requires
        wf_post(post@),
        0 <= kk < i32::MAX,
        follows_ok(follows_view(out@)),
    ensures
        follows_view(res@) == join_scan(head@, post@, 1, kk as int, follows_view(out@)),
        follows_ok(follows_view(res@)),
{
    let ghost p = post@;
    let ghost target = join_scan(head@, p, 1, kk as int, follows_view(out@));
    let n = char_len(post);
    let mut out = out;
    let mut ii: usize = 1;
    loop
        invariant
            n == p.len(),
            1 <= ii,
            word_from(p, ii as int),
            follows_ok(follows_view(out@)),
            target == join_scan(head@, p, ii as int, kk as int, follows_view(out@)),
        decreases n - ii,
    {
        assert(ii < n) by {
            if ii >= n {
                assert(!word_from(p, ii as int));
            }
        }
        let c = char_at(post, ii);
        if c == '$' {
            return out;
        }
        if c == '[' {
            let start = ii + 1;
            proof {
                lemma_close_from(p, start as int);
            }
            let ghost cl = close_from(p, start as int);
            let mut j: usize = start;
            let mut name = empty_string();
            while char_at(post, j) != ']'
                invariant
                    n == p.len(),
                    start <= j <= cl,
                    cl < p.len() - 1,
                    forall|m: int| start <= m < cl ==> p[m] != ']',
                    p[cl] == ']',
                    name@ == p.subrange(start as int, j as int),
                decreases cl - j,
            {
                push_char(&mut name, char_at(post, j));
                assert(p.subrange(start as int, j + 1) =~= p.subrange(start as int, j as int).push(p[j as int]));
                j += 1;
            }
            ii = j + 1;
            if name != *head || !full(clone_follows(&out), head.clone(), kk) {
                out = append_follows(name, head.clone(), out, kk);
            }
            continue;
        }
        ii += 1;
    }
}

/// One first pass over all items (see [`fol_rules`]).
fn fol_pass(rules: &Vec<Rule>, kk: i32, out: Vec<FOLLOW>, fuel: usize) -> (res: Option<Vec<FOLLOW>>)
    requires
        wf_rules(rules_view(rules@)),
        0 <= kk < i32::MAX,
        follows_ok(follows_view(out@)),
    ensures
        match fol_rules(rules_view(rules@), rules_view(rules@), kk as int, follows_view(out@), fuel as nat) {
            None => res is None,
            Some(o) => res matches Some(v) && follows_view(v@) == o,
        },
        res matches Some(v) ==> follows_ok(follows_view(v@)),
{
    let ghost rv = rules_view(rules@);
    let ghost o_rep = follows_view(out@);
    let mut cur = out;
    let mut j: usize = 0;
    assert(rv.take(0) =~= Seq::<RuleV>::empty());
    while j < rules.len()
        invariant
            rv == rules_view(rules@),
            wf_rules(rv),
            o_rep == follows_view(out@),
            0 <= kk < i32::MAX,
            j <= rules.len(),
            follows_ok(follows_view(cur@)),
            fol_rules(rv, rv.take(j as int), kk as int, o_rep, fuel as nat) == Some(follows_view(cur@)),
        decreases rules.len() - j,
    {
        let ghost o_j = follows_view(cur@);
        let ghost r = rv[j as int];
        assert(r == rules@[j as int]@);
        let mut k: usize = 0;
        assert(r.bodies.take(0) =~= Seq::<BodyV>::empty());
        while k < rules[j].bodies.len()
            invariant
                rv == rules_view(rules@),
                wf_rules(rv),
                0 <= kk < i32::MAX,
                o_rep == follows_view(out@),
                j < rules.len(),
                r == rv[j as int],
                r == rules@[j as int]@,
                k <= r.bodies.len(),
                follows_ok(follows_view(cur@)),
                fol_rules(rv, rv.take(j as int), kk as int, o_rep, fuel as nat) == Some(o_j),
                fol_bodies(rv, r.head, r.bodies.take(k as int), kk as int, o_j, fuel as nat) == Some(follows_view(cur@)),
            decreases r.bodies.len() - k,
        {
            assert(r.bodies[k as int] == rules@[j as int].bodies@[k as int]@);
            assert(wf_post(rv[j as int].bodies[k as int].post));
            assert(r.bodies.take(k + 1).drop_last() =~= r.bodies.take(k as int));
            assert(r.bodies.take(k + 1).last() == r.bodies[k as int]);
            match fol_scan_exec(rules, &rules[j].head, &rules[j].bodies[k].post, kk, cur, fuel) {
                None => {
                    proof {
                        assert(fol_bodies(rv, r.head, r.bodies.take(k + 1), kk as int, o_j, fuel as nat) is None);
                        lemma_fol_bodies_none(rv, r.head, r.bodies, k + 1, kk as int, o_j, fuel as nat);
                        assert(rv.take(j + 1).drop_last() =~= rv.take(j as int));
                        assert(rv.take(j + 1).last() == r);
                        assert(fol_rules(rv, rv.take(j + 1), kk as int, o_rep, fuel as nat) is None);
                        lemma_fol_rules_none(rv, rv, j + 1, kk as int, o_rep, fuel as nat);
                    }
                    return None;
                },
                Some(o) => {
                    cur = o;
                },
            }
            k += 1;
        }
        assert(r.bodies.take(k as int) =~= r.bodies);
        assert(rv.take(j + 1).drop_last() =~= rv.take(j as int));
        assert(rv.take(j + 1).last() == r);
        j += 1;
    }
    assert(rv.take(j as int) =~= rv);
    Some(cur)
}

/// The second pass over all items (see [`join_rules`]).
fn join_pass(rules: &Vec<Rule>, kk: i32, out: Vec<FOLLOW>) -> (res: Vec<FOLLOW>)
    requires
        wf_rules(rules_view(rules@)),
        0 <= kk < i32::MAX,
        follows_ok(follows_view(out@)),
    ensures
        follows_view(res@) == join_rules(rules_view(rules@), kk as int, follows_view(out@)),
        follows_ok(follows_view(res@)),
{
    let ghost rv = rules_view(rules@);
    let ghost o1 = follows_view(out@);
    let mut out = out;
    let mut i: usize = 0;
    assert(rv.take(0) =~= Seq::<RuleV>::empty());
    while i < rules.len()
        invariant
            rv == rules_view(rules@),
            wf_rules(rv),
            0 <= kk < i32::MAX,
            i <= rules.len(),
            follows_ok(follows_view(out@)),
            join_rules(rv.take(i as int), kk as int, o1) == follows_view(out@),
        decreases rules.len() - i,
    {
        let ghost r = rv[i as int];
        assert(r == rules@[i as int]@);
        let ghost o_i = follows_view(out@);
        let mut j: usize = 0;
        assert(r.bodies.take(0) =~= Seq::<BodyV>::empty());
        while j < rules[i].bodies.len()
            invariant
                rv == rules_view(rules@),
                wf_rules(rv),
                0 <= kk < i32::MAX,
                i < rules.len(),
                r == rv[i as int],
                r == rules@[i as int]@,
                j <= r.bodies.len(),
                follows_ok(follows_view(out@)),
                join_bodies(r.head, r.bodies.take(j as int), kk as int, o_i) == follows_view(out@),
            decreases r.bodies.len() - j,
        {
            assert(r.bodies[j as int] == rules@[i as int].bodies@[j as int]@);
            assert(wf_post(rv[i as int].bodies[j as int].post));
            assert(r.bodies.take(j + 1).drop_last() =~= r.bodies.take(j as int));
            assert(r.bodies.take(j + 1).last() == r.bodies[j as int]);
            out = join_scan_exec(&rules[i].head, &rules[i].bodies[j].post, kk, out);
            j += 1;
        }
        assert(r.bodies.take(j as int) =~= r.bodies);
        assert(rv.take(i + 1).drop_last() =~= rv.take(i as int));
        assert(rv.take(i + 1).last() == r);
        i += 1;
    }
    assert(rv.take(i as int) =~= rv);
    out
}

/// The FOLLOW_k sets of the nonterminals of `rules` (see [`follow_k_spec`]).
/// `None` when a FIRST_k computation runs out of `fuel`.
pub fn follow_k(rules: Vec<Rule>, kk: i32, fuel: usize) -> (res: Option<Vec<FOLLOW>>)
    requires
        wf_rules(rules_view(rules@)),
        0 <= kk < i32::MAX,
    ensures
        match follow_k_spec(rules_view(rules@), kk as int, fuel as nat) {
            None => res is None,
            Some(o) => res matches Some(v) && follows_view(v@) == o,
        },
        res matches Some(v) ==> follows_ok(follows_view(v@)),
{
    let ghost rv = rules_view(rules@);
    let mut out: Vec<FOLLOW> = Vec::new();
    let s = FOLLOW { head: char_string('S'), bodies: vec![char_string('$')] };
    assert(s@.bodies =~= seq![seq!['$']]);
    out.push(s);
    assert(follows_view(out@) =~= initial_follows());
    let mut rep: usize = 0;
    while rep < rules.len()
        invariant
            rv == rules_view(rules@),
            wf_rules(rv),
            0 <= kk < i32::MAX,
            rep <= rules.len(),
            follows_ok(follows_view(out@)),
            fol_repeat(rv, rep as nat, kk as int, initial_follows(), fuel as nat) == Some(follows_view(out@)),
        decreases rules.len() - rep,
    {
        match fol_pass(&rules, kk, out, fuel) {
            None => {
                proof {
                    lemma_fol_repeat_none(rv, (rep + 1) as nat, rv.len(), kk as int, fuel as nat);
                }
                return None;
            },
            Some(o) => {
                out = o;
            },
        }
        rep += 1;
    }
    Some(join_pass(&rules, kk, out))
}

proof fn lemma_fol_bodies_none(rules: Seq<RuleV>, head: Seq<char>, bs: Seq<BodyV>, m: int, kk: int, out: Seq<FollowV>, fuel: nat)
    requires
        0 <= m <= bs.len(),
        fol_bodies(rules, head, bs.take(m), kk, out, fuel) is None,
    ensures
        fol_bodies(rules, head, bs, kk, out, fuel) is None,
    decreases bs.len() - m,
{
    if m == bs.len() {
        assert(bs.take(m) =~= bs);
    } else {
        assert(bs.take(m + 1).drop_last() =~= bs.take(m));
        lemma_fol_bodies_none(rules, head, bs, m + 1, kk, out, fuel);
    }
}

proof fn lemma_fol_rules_none(rules: Seq<RuleV>, rs: Seq<RuleV>, m: int, kk: int, out: Seq<FollowV>, fuel: nat)
    requires
        0 <= m <= rs.len(),
        fol_rules(rules, rs.take(m), kk, out, fuel) is None,
    ensures
        fol_rules(rules, rs, kk, out, fuel) is None,
    decreases rs.len() - m,
{
    if m == rs.len() {
        assert(rs.take(m) =~= rs);
    } else {
        assert(rs.take(m + 1).drop_last() =~= rs.take(m));
        lemma_fol_rules_none(rules, rs, m + 1, kk, out, fuel);
    }
}

proof fn lemma_fol_repeat_none(rules: Seq<RuleV>, n: nat, n2: nat, kk: int, fuel: nat)
    requires
        n <= n2,
        fol_repeat(rules, n, kk, initial_follows(), fuel) is None,
    ensures
        fol_repeat(rules, n2, kk, initial_follows(), fuel) is None,
    decreases n2 - n,
{
    if n < n2 {
        lemma_fol_repeat_none(rules, n + 1, n2, kk, fuel);
    }
}

} // verus!
