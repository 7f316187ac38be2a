//! Grammar rules: their textual form, parsing, printing and merging.
use vstd::prelude::*;
use vstd::utf8::is_ascii_chars;
use crate::text::{char_at, char_len, char_string, empty_string, push_char, push_str, substring};
use crate::slr::automaton::{wf_rules, lemma_parsed_rules_wf};

verus! {

/// One alternative of a rule, split by the LR(0) dot: `pre` is what has been
/// read, `post` starts with the dot `.` and ends with the end marker `$`.
#[allow(non_camel_case_types)]
pub struct Rule_body {
    pub pre: String,
    pub post: String,
}

/// All alternatives of one nonterminal `head`.
pub struct Rule {
    pub head: String,
    pub bodies: Vec<Rule_body>,
}

/// The mathematical value of a [`Rule_body`].
#[verifier::ext_equal]
pub struct BodyV {
    pub pre: Seq<char>,
    pub post: Seq<char>,
}

/// The mathematical value of a [`Rule`].
#[verifier::ext_equal]
pub struct RuleV {
    pub head: Seq<char>,
    pub bodies: Seq<BodyV>,
}

impl View for Rule_body {
    type V = BodyV;

    open spec fn view(&self) -> BodyV {
        BodyV { pre: self.pre@, post: self.post@ }
    }
}

impl View for Rule {
    type V = RuleV;

    open spec fn view(&self) -> RuleV {
        RuleV { head: self.head@, bodies: bodies_view(self.bodies@) }
    }
}

pub open spec fn bodies_view(bs: Seq<Rule_body>) -> Seq<BodyV> {
    bs.map_values(|b: Rule_body| b@)
}

pub open spec fn rules_view(rs: Seq<Rule>) -> Seq<RuleV> {
    rs.map_values(|r: Rule| r@)
}

pub open spec fn strs_view(ss: Seq<String>) -> Seq<Seq<char>> {
    ss.map_values(|s: String| s@)
}

impl Clone for Rule_body {
    fn clone(&self) -> (res: Self)
        ensures
            res@ == self@,
    {
        Rule_body { pre: self.pre.clone(), post: self.post.clone() }
    }
}

impl Clone for Rule {
    fn clone(&self) -> (res: Self)
        ensures
            res@ == self@,
    {
        let bodies = self.bodies.clone();
        assert(bodies_view(bodies@) =~= bodies_view(self.bodies@));
        Rule { head: self.head.clone(), bodies }
    }
}

/// A copy of a list of rules.
pub fn clone_rules(rs: &Vec<Rule>) -> (res: Vec<Rule>)
    ensures
        rules_view(res@) == rules_view(rs@),
{
    let res = rs.clone();
    assert(rules_view(res@) =~= rules_view(rs@));
    res
}

/// A copy of a list of alternatives.
pub fn clone_bodies(bs: &Vec<Rule_body>) -> (res: Vec<Rule_body>)
    ensures
        bodies_view(res@) == bodies_view(bs@),
{
    let res = bs.clone();
    assert(bodies_view(res@) =~= bodies_view(bs@));
    res
}

/// A copy of a list of strings.
pub fn clone_strs(ss: &Vec<String>) -> (res: Vec<String>)
    ensures
        strs_view(res@) == strs_view(ss@),
{
    let res = ss.clone();
    assert(strs_view(res@) =~= strs_view(ss@));
    res
}

/// Characters that separate symbols in the input and carry no meaning.
pub open spec fn is_blank(c: char) -> bool {
    c == ' ' || c == '\t' || c == '\r' || c == '\n'
}

/// The characters that are kept: all but blanks.
pub open spec fn kept_char() -> spec_fn(char) -> bool {
    |c: char| !is_blank(c)
}

/// The characters of `s` that are not blanks, in order.
pub open spec fn non_blank(s: Seq<char>) -> Seq<char> {
    s.filter(kept_char())
}

/// Removes spaces, tabulations and line ends from a rule.
pub fn del_whitespaces(rule: String) -> (res: String)
    requires
        is_ascii_chars(rule@),
    ensures
        res@ == non_blank(rule@),
{
    let mut new_rule = empty_string();
    let n = char_len(&rule);
    let mut i: usize = 0;
    while i < n
        invariant
            n == rule@.len(),
            i <= n,
            new_rule@ == non_blank(rule@.take(i as int)),
        decreases n - i,
    {
        let c = char_at(&rule, i);
        assert(rule@.take(i + 1).drop_last() =~= rule@.take(i as int));
        assert(rule@.take(i + 1).last() == c);
        reveal_with_fuel(Seq::<_>::filter, 1);
        assert(non_blank(rule@.take(i + 1)) == if is_blank(c) {
            non_blank(rule@.take(i as int))
        } else {
            non_blank(rule@.take(i as int)).push(c)
        });
        if c != ' ' && c != '\t' && c != '\r' && c != '\n' {
            push_char(&mut new_rule, c);
        }
        i += 1;
    }
    assert(rule@.take(n as int) =~= rule@);
    new_rule
}

/// The position of the first rule at or after `i` whose head is `h`
/// (`rs.len()` when there is none).
pub open spec fn head_index_from(rs: Seq<RuleV>, h: Seq<char>, i: nat) -> nat
    decreases rs.len() - i,
{
    if i >= rs.len() {
        rs.len()
    } else if rs[i as int].head == h {
        i
    } else {
        head_index_from(rs, h, i + 1)
    }
}

/// The position of the first rule whose head is `h` (`rs.len()` when none).
pub open spec fn head_index(rs: Seq<RuleV>, h: Seq<char>) -> nat {
    head_index_from(rs, h, 0)
}

pub proof fn lemma_head_index_from(rs: Seq<RuleV>, h: Seq<char>, i: nat)
    ensures
        i <= head_index_from(rs, h, i) <= rs.len() || (i > rs.len() && head_index_from(rs, h, i) == rs.len()),
        head_index_from(rs, h, i) < rs.len() ==> rs[head_index_from(rs, h, i) as int].head == h,
        forall|j: int| i <= j < head_index_from(rs, h, i) ==> rs[j].head != h,
    decreases rs.len() - i,
{
    if i < rs.len() && rs[i as int].head != h {
        lemma_head_index_from(rs, h, i + 1);
    }
}

pub proof fn lemma_head_index(rs: Seq<RuleV>, h: Seq<char>)
    ensures
        head_index(rs, h) <= rs.len(),
        head_index(rs, h) < rs.len() ==> rs[head_index(rs, h) as int].head == h,
        forall|j: int| 0 <= j < head_index(rs, h) ==> rs[j].head != h,
        (head_index(rs, h) == rs.len()) == (forall|j: int| 0 <= j < rs.len() ==> rs[j].head != h),
{
    lemma_head_index_from(rs, h, 0);
}

/// `rs` with the alternatives `bs` added to the first rule headed by `h`, or
/// with a new rule `h -> bs` at the end when no rule has that head.
pub open spec fn append_rule_spec(rs: Seq<RuleV>, h: Seq<char>, bs: Seq<BodyV>) -> Seq<RuleV> {
    let i = head_index(rs, h);
    if i < rs.len() {
        rs.update(i as int, RuleV { head: rs[i as int].head, bodies: rs[i as int].bodies + bs })
    } else {
        rs.push(RuleV { head: h, bodies: bs })
    }
}

/// Adds the alternatives `bodies` to the rule headed by `head`.
pub fn append_rule(output: Vec<Rule>, head: String, bodies: Vec<Rule_body>) -> (res: Vec<Rule>)
    ensures
        rules_view(res@) == append_rule_spec(rules_view(output@), head@, bodies_view(bodies@)),
{
    let ghost rs0 = rules_view(output@);
    let mut out = output;
    proof {
        lemma_head_index(rs0, head@);
    }
    let mut i: usize = 0;
    while i < out.len()
        invariant
            rules_view(out@) == rs0,
            rs0 == rules_view(output@),
            i <= out.len(),
            forall|j: int| 0 <= j < i ==> rs0[j].head != head@,
        decreases out.len() - i,
    {
        if out[i].head == head {
            let mut r = out[i].clone();
            let mut j: usize = 0;
            let ghost b0 = bodies_view(r.bodies@);
            while j < bodies.len()
                invariant
                    r.head@ == head@,
                    j <= bodies.len(),
                    bodies_view(r.bodies@) == b0 + bodies_view(bodies@).take(j as int),
                decreases bodies.len() - j,
            {
                let ghost prev = bodies_view(r.bodies@);
                r.bodies.push(bodies[j].clone());
                assert(bodies_view(r.bodies@) =~= prev.push(bodies@[j as int]@));
                assert(bodies_view(bodies@).take(j + 1) =~= bodies_view(bodies@).take(j as int).push(bodies@[j as int]@));
                assert(bodies_view(r.bodies@) =~= b0 + bodies_view(bodies@).take(j + 1));
                j += 1;
            }
            assert(bodies_view(bodies@).take(j as int) =~= bodies_view(bodies@));
            assert(rs0[i as int].head == head@);
            proof {
                lemma_head_index(rs0, head@);
            }
            assert(head_index(rs0, head@) == i);
            out.set(i, r);
            assert(rules_view(out@) =~= append_rule_spec(rs0, head@, bodies_view(bodies@)));
            return out;
        }
        i += 1;
    }
    let ghost bv = bodies_view(bodies@);
    proof {
        lemma_head_index(rs0, head@);
    }
    out.push(Rule { head, bodies });
    assert(rules_view(out@) =~= append_rule_spec(rs0, head@, bv));
    out
}


/// The text `] -> ` that separates a head from its alternatives.
pub open spec fn arrow_text() -> Seq<char> {
    seq![']', ' ', '-', '>', ' ']
}

/// The text ` | ` that separates two alternatives.
pub open spec fn bar_text() -> Seq<char> {
    seq![' ', '|', ' ']
}

/// Each alternative printed as `pre` followed by `post` without its end
/// marker, each one followed by ` | `.
pub open spec fn bodies_text(bs: Seq<BodyV>) -> Seq<char>
    decreases bs.len(),
{
    if bs.len() == 0 {
        Seq::empty()
    } else {
        bodies_text(bs.drop_last()) + bs.last().pre + bs.last().post.drop_last() + bar_text()
    }
}

/// The printed form of a rule, `[head] -> a | b | c`.
pub open spec fn rule_text(r: RuleV) -> Seq<char> {
    let s = seq!['['] + r.head + arrow_text() + bodies_text(r.bodies);
    s.take(s.len() - 3)
}

/// The end of `post` can be cut off as one byte: `post` is not empty and its
/// last character is ASCII.
pub open spec fn printable_body(b: BodyV) -> bool {
    b.post.len() > 0 && b.post.last() <= '\u{7f}'
}

pub open spec fn printable_rule(r: RuleV) -> bool {
    forall|i: int| 0 <= i < r.bodies.len() ==> printable_body(#[trigger] r.bodies[i])
}

proof fn lemma_bodies_text_len(bs: Seq<BodyV>)
    ensures
        bodies_text(bs).len() >= 3 * bs.len(),
    decreases bs.len(),
{
    if bs.len() > 0 {
        lemma_bodies_text_len(bs.drop_last());
    }
}

/// Appends the characters `[` `]` ` ` `-` `>` ` ` one by one.
fn push_seq(s: &mut String, cs: &Vec<char>)
    ensures
        final(s)@ == old(s)@ + cs@,
{
    let mut i: usize = 0;
    while i < cs.len()
        invariant
            i <= cs.len(),
            s@ == old(s)@ + cs@.take(i as int),
        decreases cs.len() - i,
    {
        push_char(s, cs[i]);
        assert(cs@.take(i + 1) =~= cs@.take(i as int).push(cs@[i as int]));
        i += 1;
    }
    assert(cs@.take(i as int) =~= cs@);
}

/// Prints a rule as `[head] -> alternative | alternative`.
pub fn rule_to_string(rule: Rule) -> (res: String)
    requires
        printable_rule(rule@),
    ensures
        res@ == rule_text(rule@),
{
    let mut out = empty_string();
    push_char(&mut out, '[');
    push_str(&mut out, &rule.head);
    let arrow = vec![']', ' ', '-', '>', ' '];
    push_seq(&mut out, &arrow);
    assert(arrow@ =~= arrow_text());
    let ghost start = out@;
    let ghost bs = rule@.bodies;
    let mut i: usize = 0;
    while i < rule.bodies.len()
        invariant
            bs == rule@.bodies,
            printable_rule(rule@),
            i <= rule.bodies.len(),
            out@ == start + bodies_text(bs.take(i as int)),
        decreases rule.bodies.len() - i,
    {
        let b = &rule.bodies[i];
        assert(bs[i as int] == b@);
        assert(printable_body(bs[i as int]));
        let n = char_len(&b.post);
        let cut = substring(&b.post, 0, n - 1);
        push_str(&mut out, &b.pre);
        push_str(&mut out, &cut);
        push_char(&mut out, ' ');
        push_char(&mut out, '|');
        push_char(&mut out, ' ');
        assert(bs.take(i + 1).drop_last() =~= bs.take(i as int));
        assert(b@.post.drop_last() =~= cut@);
        assert(out@ =~= start + bodies_text(bs.take(i + 1)));
        i += 1;
    }
    assert(bs.take(i as int) =~= bs);
    proof {
        lemma_bodies_text_len(bs);
    }
    let len = char_len(&out);
    substring(&out, 0, len - 3)
}

/// The rules of `rs` merged by head, in the order in which heads first occur.
pub open spec fn filter_rules_spec(rs: Seq<RuleV>) -> Seq<RuleV> {
    rs.fold_left(Seq::<RuleV>::empty(), |acc: Seq<RuleV>, r: RuleV| append_rule_spec(acc, r.head, r.bodies))
}

/// Merges the rules that share a head into one rule.
pub fn filter_rules(rules: Vec<Rule>) -> (res: Vec<Rule>)
    ensures
        rules_view(res@) == filter_rules_spec(rules_view(rules@)),
{
    let ghost rs = rules_view(rules@);
    let mut new_rules: Vec<Rule> = Vec::new();
    let mut i: usize = 0;
    while i < rules.len()
        invariant
            rs == rules_view(rules@),
            i <= rules.len(),
            rules_view(new_rules@) == filter_rules_spec(rs.take(i as int)),
        decreases rules.len() - i,
    {
        let r = rules[i].clone();
        assert(rs.take(i + 1).drop_last() =~= rs.take(i as int));
        assert(rs[i as int] == r@);
        new_rules = append_rule(new_rules, r.head, r.bodies);
        i += 1;
    }
    assert(rs.take(i as int) =~= rs);
    new_rules
}

/// Whether `body` is among `bodies` (same `pre` and same `post`).
pub fn present(body: Rule_body, bodies: Vec<Rule_body>) -> (res: bool)
    ensures
        res == bodies_view(bodies@).contains(body@),
{
    let mut i: usize = 0;
    while i < bodies.len()
        invariant
            i <= bodies.len(),
            forall|j: int| 0 <= j < i ==> bodies@[j]@ != body@,
        decreases bodies.len() - i,
    {
        if bodies[i].pre == body.pre && bodies[i].post == body.post {
            assert(bodies_view(bodies@)[i as int] == body@);
            return true;
        }
        i += 1;
    }
    assert(!bodies_view(bodies@).contains(body@)) by {
        if bodies_view(bodies@).contains(body@) {
            let j = choose|j: int| 0 <= j < bodies@.len() && bodies_view(bodies@)[j] == body@;
            assert(bodies@[j]@ == body@);
        }
    }
    false
}

/// Whether `head` is one of `heads`.
pub fn inside(head: String, heads: Vec<String>) -> (res: bool)
    ensures
        res == strs_view(heads@).contains(head@),
{
    let mut i: usize = 0;
    while i < heads.len()
        invariant
            i <= heads.len(),
            forall|j: int| 0 <= j < i ==> heads@[j]@ != head@,
        decreases heads.len() - i,
    {
        if heads[i] == head {
            assert(strs_view(heads@)[i as int] == head@);
            return true;
        }
        i += 1;
    }
    assert(!strs_view(heads@).contains(head@)) by {
        if strs_view(heads@).contains(head@) {
            let j = choose|j: int| 0 <= j < heads@.len() && strs_view(heads@)[j] == head@;
            assert(heads@[j]@ == head@);
        }
    }
    false
}

/// The first rule headed by `h`, or a rule with an empty head and no
/// alternatives.
pub open spec fn get_rule_spec(rs: Seq<RuleV>, h: Seq<char>) -> RuleV {
    let i = head_index(rs, h);
    if i < rs.len() {
        rs[i as int]
    } else {
        RuleV { head: Seq::empty(), bodies: Seq::empty() }
    }
}

/// The rule headed by `head`.
pub fn get_rule(rules: Vec<Rule>, head: String) -> (res: Rule)
    ensures
        res@ == get_rule_spec(rules_view(rules@), head@),
{
    let ghost rs = rules_view(rules@);
    let mut i: usize = 0;
    while i < rules.len()
        invariant
            rs == rules_view(rules@),
            i <= rules.len(),
            forall|j: int| 0 <= j < i ==> rs[j].head != head@,
        decreases rules.len() - i,
    {
        if rules[i].head == head {
            proof {
                lemma_head_index(rs, head@);
            }
            assert(rs[i as int].head == head@);
            return rules[i].clone();
        }
        i += 1;
    }
    proof {
        lemma_head_index(rs, head@);
    }
    let res = Rule { head: empty_string(), bodies: Vec::new() };
    assert(res@ =~= get_rule_spec(rs, head@));
    res
}

/// The two lists print alike, rule by rule.
pub open spec fn same_roots_spec(roots: Seq<RuleV>, state: Seq<RuleV>) -> bool {
    roots.len() == state.len() && forall|i: int|
        0 <= i < roots.len() ==> rule_text(#[trigger] roots[i]) == rule_text(state[i])
}

/// The first `i` rules of both lists print alike.
pub open spec fn texts_agree_upto(roots: Seq<RuleV>, state: Seq<RuleV>, i: int) -> bool {
    forall|j: int| 0 <= j < i ==> rule_text(#[trigger] roots[j]) == rule_text(state[j])
}

/// The rules that `same_roots` prints before it finds two that differ.
pub open spec fn same_roots_printable(roots: Seq<RuleV>, state: Seq<RuleV>) -> bool {
    roots.len() == state.len() ==> forall|i: int|
        0 <= i < roots.len() && #[trigger] texts_agree_upto(roots, state, i)
            ==> printable_rule(roots[i]) && printable_rule(state[i])
}

/// Whether two lists of rules print alike, rule by rule.
pub fn same_roots(roots: Vec<Rule>, state: Vec<Rule>) -> (res: bool)
    requires
        same_roots_printable(rules_view(roots@), rules_view(state@)),
    ensures
        res == same_roots_spec(rules_view(roots@), rules_view(state@)),
{
    let ghost a = rules_view(roots@);
    let ghost b = rules_view(state@);
    if roots.len() != state.len() {
        return false;
    }
    let mut i: usize = 0;
    while i < roots.len()
        invariant
            a == rules_view(roots@),
            b == rules_view(state@),
            roots.len() == state.len(),
            same_roots_printable(a, b),
            i <= roots.len(),
            forall|j: int| 0 <= j < i ==> rule_text(#[trigger] a[j]) == rule_text(b[j]),
        decreases roots.len() - i,
    {
        let mut j: usize = 0;
        while j < state.len()
            invariant
                a == rules_view(roots@),
                b == rules_view(state@),
                roots.len() == state.len(),
                same_roots_printable(a, b),
                i < roots.len(),
                j <= state.len(),
                forall|jj: int| 0 <= jj < i ==> rule_text(#[trigger] a[jj]) == rule_text(b[jj]),
                j > 0 ==> rule_text(a[i as int]) == rule_text(b[i as int]),
            decreases state.len() - j,
        {
            assert(texts_agree_upto(a, b, i as int));
            assert(printable_rule(a[i as int]) && printable_rule(b[i as int]));
            assert(a[i as int] == roots@[i as int]@);
            assert(b[i as int] == state@[i as int]@);
            if rule_to_string(roots[i].clone()) != rule_to_string(state[i].clone()) {
                return false;
            }
            j += 1;
        }
        i += 1;
    }
    true
}


/// `bs` followed by those alternatives of `new` that are not yet among them,
/// each checked against the list as it grows.
pub open spec fn merge_bodies(bs: Seq<BodyV>, new: Seq<BodyV>) -> Seq<BodyV> {
    new.fold_left(bs, |acc: Seq<BodyV>, b: BodyV| if acc.contains(b) { acc } else { acc.push(b) })
}

/// Adds the root `r` to `acc`: its new alternatives go to the rule with the
/// same head, or `r` becomes a rule of its own.
pub open spec fn add_root(acc: Seq<RuleV>, r: RuleV) -> Seq<RuleV> {
    let j = head_index(acc, r.head);
    if j < acc.len() {
        acc.update(j as int, RuleV { head: acc[j as int].head, bodies: merge_bodies(acc[j as int].bodies, r.bodies) })
    } else {
        acc.push(r)
    }
}

/// The roots merged by head, without repeated alternatives coming from later
/// roots.
pub open spec fn formalize_roots_spec(rs: Seq<RuleV>) -> Seq<RuleV> {
    rs.fold_left(Seq::<RuleV>::empty(), |acc: Seq<RuleV>, r: RuleV| add_root(acc, r))
}

/// No two rules share a head.
pub open spec fn heads_distinct(rs: Seq<RuleV>) -> bool {
    forall|a: int, b: int| 0 <= a < b < rs.len() ==> rs[a].head != rs[b].head
}

proof fn lemma_head_index_distinct(rs: Seq<RuleV>, j: int)
    requires
        heads_distinct(rs),
        0 <= j < rs.len(),
    ensures
        head_index(rs, rs[j].head) == j,
{
    lemma_head_index(rs, rs[j].head);
    let hi = head_index(rs, rs[j].head) as int;
    if hi < j {
        assert(rs[hi].head == rs[j].head);
    } else if hi > j {
        assert(rs[j].head != rs[j].head);
    }
}

/// Merges roots that share a head, keeping each alternative once.
#[verifier::loop_isolation(false)]
pub fn formalize_roots(roots: Vec<Rule>) -> (res: Vec<Rule>)
    ensures
        rules_view(res@) == formalize_roots_spec(rules_view(roots@)),
        heads_distinct(rules_view(res@)),
{
    let ghost rs = rules_view(roots@);
    let mut new_roots: Vec<Rule> = Vec::new();
    let mut i: usize = 0;
    while i < roots.len()
        invariant
            i <= roots.len(),
            rules_view(new_roots@) == formalize_roots_spec(rs.take(i as int)),
            heads_distinct(rules_view(new_roots@)),
        decreases roots.len() - i,
    {
        let head = roots[i].head.clone();
        let ghost acc = rules_view(new_roots@);
        let ghost r = rs[i as int];
        assert(r == roots@[i as int]@);
        let ghost hi = head_index(acc, r.head) as int;
        proof {
            lemma_head_index(acc, r.head);
        }
        let ghost merged = RuleV { head: r.head, bodies: merge_bodies(acc[hi].bodies, r.bodies) };
        let mut done = false;
        let mut j: usize = 0;
        while j < new_roots.len()
            invariant
                0 <= hi <= acc.len(),
                new_roots.len() == acc.len(),
                j <= new_roots.len(),
                done == (hi < j),
                rules_view(new_roots@) == if hi < j { acc.update(hi, merged) } else { acc },
                heads_distinct(acc),
            decreases new_roots.len() - j,
        {
            if new_roots[j].head == head {
                proof {
                    lemma_head_index_distinct(acc, j as int);
                    assert(new_roots@[j as int]@ == rules_view(new_roots@)[j as int]);
                    if hi < j {
                        assert(acc.update(hi, merged)[j as int] == acc[j as int]);
                        assert(acc[j as int].head == r.head);
                        assert(acc[hi].head == r.head);
                        assert(false);
                    }
                    assert(acc[j as int].head == r.head);
                }
                assert(hi == j);
                done = true;
                let mut nb = new_roots[j].bodies.clone();
                let ghost b0 = acc[hi].bodies;
                assert(bodies_view(nb@) =~= b0);
                let mut k: usize = 0;
                while k < roots[i].bodies.len()
                    invariant
                        k <= roots@[i as int].bodies.len(),
                        bodies_view(nb@) == merge_bodies(b0, r.bodies.take(k as int)),
                        r == roots@[i as int]@,
                    decreases roots@[i as int].bodies.len() - k,
                {
                    let b = roots[i].bodies[k].clone();
                    assert(r.bodies.take(k + 1).drop_last() =~= r.bodies.take(k as int));
                    assert(r.bodies[k as int] == b@);
                    assert(r.bodies.take(k + 1).last() == b@);
                    assert(merge_bodies(b0, r.bodies.take(k + 1)) == {
                        let acc = merge_bodies(b0, r.bodies.take(k as int));
                        if acc.contains(b@) { acc } else { acc.push(b@) }
                    });
                    let ghost before = bodies_view(nb@);
                    if !present(b.clone(), clone_bodies(&nb)) {
                        nb.push(b);
                        assert(bodies_view(nb@) =~= before.push(r.bodies[k as int]));
                    }
                    k += 1;
                }
                assert(r.bodies.take(k as int) =~= r.bodies);
                let nh = new_roots[j].head.clone();
                new_roots.set(j, Rule { head: nh, bodies: nb });
                assert(rules_view(new_roots@) =~= acc.update(hi, merged));
            }
            j += 1;
        }
        assert(rs.take(i + 1).drop_last() =~= rs.take(i as int));
        if !done {
            let ghost before = rules_view(new_roots@);
            new_roots.push(Rule { head, bodies: clone_bodies(&roots[i].bodies) });
            assert(rules_view(new_roots@) =~= before.push(r));
        }
        assert(rules_view(new_roots@) == add_root(acc, r));
        i += 1;
    }
    assert(rs.take(i as int) =~= rs);
    new_roots
}

/// Why a line of the grammar was refused.
#[derive(Clone, Copy, Debug, PartialEq, Eq)]
pub enum GrammarError {
    /// The line does not start with `[`.
    NoStartNonterminal,
    /// The head nonterminal is not closed by `]` before another `[` opens.
    UnclosedHead,
    /// The head is not followed by `->`.
    NoArrow,
    /// A `|` ends the line.
    EmptyAlternative,
    /// A nonterminal in an alternative is not closed by `]`.
    UnclosedNonterminal,
    /// A character that is neither a letter, a digit, `[`, `]` nor `|`.
    UnknownSymbol,
}

/// Letters and digits: the terminal symbols of a grammar. For ASCII
/// characters this is what `char::is_alphabetic` or `char::is_digit(10)`
/// accept.
pub open spec fn is_symbol_char(c: char) -> bool {
    ('a' <= c <= 'z') || ('A' <= c <= 'Z') || ('0' <= c <= '9')
}

/// The first position at or after `i` that holds `]` (`s.len()` when none).
pub open spec fn close_from(s: Seq<char>, i: int) -> int
    decreases s.len() - i,
{
    if i >= s.len() {
        s.len() as int
    } else if s[i] == ']' {
        i
    } else {
        close_from(s, i + 1)
    }
}

pub proof fn lemma_close_from(s: Seq<char>, i: int)
    requires
        0 <= i,
    ensures
        i <= close_from(s, i) <= s.len() || (i > s.len() && close_from(s, i) == s.len()),
        close_from(s, i) < s.len() ==> s[close_from(s, i)] == ']',
        forall|j: int| i <= j < close_from(s, i) ==> s[j] != ']',
    decreases s.len() - i,
{
    if i < s.len() && s[i] != ']' {
        lemma_close_from(s, i + 1);
    }
}

/// The alternatives of a rule from position `ii` on, `body` being the one
/// being read and `bodies` those already read.
pub open spec fn scan_bodies(s: Seq<char>, ii: int, body: Seq<char>, bodies: Seq<Seq<char>>) -> Result<Seq<Seq<char>>, GrammarError>
    decreases s.len() - ii,
{
    if ii < 0 || ii >= s.len() {
        Ok(bodies.push(body))
    } else if s[ii] == '|' {
        if ii == s.len() - 1 {
            Err(GrammarError::EmptyAlternative)
        } else {
            scan_bodies(s, ii + 1, Seq::empty(), bodies.push(body))
        }
    } else if s[ii] == '[' {
        let c = close_from(s, ii);
        if c >= s.len() || c <= ii {
            Err(GrammarError::UnclosedNonterminal)
        } else {
            scan_bodies(s, c + 1, body + s.subrange(ii, c) + seq![']'], bodies)
        }
    } else if !is_symbol_char(s[ii]) {
        Err(GrammarError::UnknownSymbol)
    } else {
        scan_bodies(s, ii + 1, body.push(s[ii]), bodies)
    }
}

/// The outcome of reading one line of the grammar.
pub enum LineParse {
    /// The head and the alternatives.
    Parsed(Seq<char>, Seq<Seq<char>>),
    /// The line is refused.
    Failed(GrammarError),
}

/// Reads `[head] -> alternative | alternative`.
pub open spec fn parse_line(s: Seq<char>) -> LineParse {
    if s.len() == 0 || s[0] != '[' {
        LineParse::Failed(GrammarError::NoStartNonterminal)
    } else {
        let c = close_from(s, 1);
        if c >= s.len() || s.subrange(1, c).contains('[') {
            LineParse::Failed(GrammarError::UnclosedHead)
        } else if c + 2 >= s.len() || s[c + 1] != '-' || s[c + 2] != '>' {
            LineParse::Failed(GrammarError::NoArrow)
        } else {
            match scan_bodies(s, c + 3, Seq::empty(), Seq::empty()) {
                Ok(bs) => LineParse::Parsed(s.subrange(1, c), bs),
                Err(e) => LineParse::Failed(e),
            }
        }
    }
}

/// An alternative read from the text, with the dot before it and the end
/// marker after it.
pub open spec fn fresh_body(b: Seq<char>) -> BodyV {
    BodyV { pre: Seq::empty(), post: seq!['.'] + b + seq!['$'] }
}

/// Each alternative read from the text, with its dot and end marker.
pub open spec fn fresh_bodies(bs: Seq<Seq<char>>) -> Seq<BodyV> {
    bs.map_values(|b: Seq<char>| fresh_body(b))
}

/// The rules read from the lines, merged by head; the first refused line
/// gives the error.
pub open spec fn parse_rules_spec(lines: Seq<Seq<char>>) -> Result<Seq<RuleV>, GrammarError>
    decreases lines.len(),
{
    if lines.len() == 0 {
        Ok(Seq::empty())
    } else {
        match parse_rules_spec(lines.drop_last()) {
            Err(e) => Err(e),
            Ok(acc) => match parse_line(lines.last()) {
                LineParse::Parsed(h, bs) => Ok(append_rule_spec(acc, h, fresh_bodies(bs))),
                LineParse::Failed(e) => Err(e),
            },
        }
    }
}

/// Every line that is read (all lines up to the first refused one) is ASCII.
pub open spec fn lines_readable(lines: Seq<Seq<char>>) -> bool {
    forall|i: int|
        0 <= i < lines.len() && (#[trigger] parse_rules_spec(lines.take(i))) is Ok ==> is_ascii_chars(lines[i])
}

/// Reads one line of the grammar.
fn parse_rule_line(line: &String) -> (res: Result<(String, Vec<String>), GrammarError>)
    requires
        is_ascii_chars(line@),
    ensures
        match parse_line(line@) {
            LineParse::Parsed(h, bs) => res matches Ok((rh, rbs)) && rh@ == h && strs_view(rbs@) == bs,
            LineParse::Failed(e) => res == Err::<(String, Vec<String>), GrammarError>(e),
        },
{
    let ghost s = line@;
    let n = char_len(line);
    if n == 0 || char_at(line, 0) != '[' {
        return Err(GrammarError::NoStartNonterminal);
    }
    let mut ii: usize = 1;
    let mut new_head = empty_string();
    let mut opened = false;
    proof {
        lemma_close_from(s, 1);
    }
    while ii < n && char_at(line, ii) != ']'
        invariant
            n == s.len(),
            s == line@,
            1 <= ii <= close_from(s, 1),
            close_from(s, 1) == close_from(s, ii as int),
            new_head@ == s.subrange(1, ii as int),
            opened == new_head@.contains('['),
        decreases n - ii,
    {
        let c = char_at(line, ii);
        let ghost prev = new_head@;
        push_char(&mut new_head, c);
        if c == '[' {
            opened = true;
            assert(new_head@[prev.len() as int] == '[');
        } else {
            proof {
                assert forall|q: int| 0 <= q < new_head@.len() && new_head@[q] == '[' implies prev.contains('[') by {
                    assert(q < prev.len());
                    assert(prev[q] == '[');
                }
                if opened {
                    let q = choose|q: int| 0 <= q < prev.len() && prev[q] == '[';
                    assert(new_head@[q] == '[');
                }
            }
        }
        assert(s.subrange(1, ii + 1) =~= s.subrange(1, ii as int).push(s[ii as int]));
        proof {
            lemma_close_from(s, ii + 1);
        }
        ii += 1;
    }
    assert(ii == close_from(s, 1));
    if ii == n || opened {
        return Err(GrammarError::UnclosedHead);
    }
    ii += 1;
    if ii >= n - 1 || char_at(line, ii) != '-' || char_at(line, ii + 1) != '>' {
        return Err(GrammarError::NoArrow);
    }
    ii += 2;
    let mut bodies: Vec<String> = Vec::new();
    let mut new_body = empty_string();
    let ghost target = scan_bodies(s, ii as int, Seq::empty(), Seq::empty());
    assert(strs_view(bodies@) =~= Seq::<Seq<char>>::empty());
    assert(parse_line(s) == match target {
        Ok(bs) => LineParse::Parsed(new_head@, bs),
        Err(e) => LineParse::Failed(e),
    });
    while ii < n
        invariant
            n == s.len(),
            s == line@,
            is_ascii_chars(s),
            ii <= n,
            target == scan_bodies(s, ii as int, new_body@, strs_view(bodies@)),
            parse_line(s) == match target {
                Ok(bs) => LineParse::Parsed(new_head@, bs),
                Err(e) => LineParse::Failed(e),
            },
        decreases n - ii,
    {
        let c = char_at(line, ii);
        if c == '|' {
            let ghost prev = strs_view(bodies@);
            bodies.push(new_body);
            assert(strs_view(bodies@) =~= prev.push(new_body@));
            new_body = empty_string();
            if ii == n - 1 {
                return Err(GrammarError::EmptyAlternative);
            }
            ii += 1;
            continue;
        }
        if c == '[' {
            let start = ii;
            proof {
                lemma_close_from(s, ii as int);
            }
            let ghost b0 = new_body@;
            while ii < n && char_at(line, ii) != ']'
                invariant
                    n == s.len(),
                    s == line@,
                    start <= ii <= close_from(s, start as int),
                    close_from(s, start as int) == close_from(s, ii as int),
                    new_body@ == b0 + s.subrange(start as int, ii as int),
                decreases n - ii,
            {
                push_char(&mut new_body, char_at(line, ii));
                assert(s.subrange(start as int, ii + 1) =~= s.subrange(start as int, ii as int).push(s[ii as int]));
                proof {
                    lemma_close_from(s, ii + 1);
                }
                ii += 1;
            }
            if ii == n {
                return Err(GrammarError::UnclosedNonterminal);
            }
            assert(close_from(s, start as int) == ii);
            push_char(&mut new_body, ']');
            assert(new_body@ =~= b0 + s.subrange(start as int, ii as int) + seq![']']);
            ii += 1;
            continue;
        }
        let alpha = ('a' <= c && c <= 'z') || ('A' <= c && c <= 'Z');
        let digit = '0' <= c && c <= '9';
        if !alpha && !digit {
            return Err(GrammarError::UnknownSymbol);
        }
        push_char(&mut new_body, c);
        ii += 1;
    }
    let ghost prev = strs_view(bodies@);
    bodies.push(new_body);
    assert(strs_view(bodies@) =~= prev.push(new_body@));
    Ok((new_head, bodies))
}

/// Reads the rules of a grammar, one per line, merging the lines that share a
/// head.
pub fn parse_rules(rules: Vec<String>) -> (res: Result<Vec<Rule>, GrammarError>)
    requires
        lines_readable(strs_view(rules@)),
    ensures
        match parse_rules_spec(strs_view(rules@)) {
            Ok(rs) => res matches Ok(out) && rules_view(out@) == rs,
            Err(e) => res == Err::<Vec<Rule>, GrammarError>(e),
        },
        res matches Ok(out) ==> wf_rules(rules_view(out@)),
{
    let ghost lines = strs_view(rules@);
    proof {
        lemma_parsed_rules_wf(lines);
    }
    let mut output: Vec<Rule> = Vec::new();
    assert(lines.take(0) =~= Seq::<Seq<char>>::empty());
    assert(rules_view(output@) =~= Seq::<RuleV>::empty());
    let mut i: usize = 0;
    while i < rules.len()
        invariant
            lines == strs_view(rules@),
            lines_readable(lines),
            i <= rules.len(),
            parse_rules_spec(lines.take(i as int)) == Ok::<Seq<RuleV>, GrammarError>(rules_view(output@)),
        decreases rules.len() - i,
    {
        assert(lines.take(i + 1).drop_last() =~= lines.take(i as int));
        assert(lines[i as int] == rules@[i as int]@);
        let line = parse_rule_line(&rules[i]);
        match line {
            Err(e) => {
                proof {
                    lemma_parse_rules_err(lines, i as int + 1, e);
                }
                return Err(e);
            },
            Ok((head, bodies)) => {
                let mut new_bodies: Vec<Rule_body> = Vec::new();
                let mut j: usize = 0;
                while j < bodies.len()
                    invariant
                        j <= bodies.len(),
                        bodies_view(new_bodies@) == fresh_bodies(strs_view(bodies@).take(j as int)),
                    decreases bodies.len() - j,
                {
                    let mut post = char_string('.');
                    push_str(&mut post, &bodies[j]);
                    push_char(&mut post, '$');
                    assert(post@ =~= seq!['.'] + bodies@[j as int]@ + seq!['$']);
                    let ghost prev = bodies_view(new_bodies@);
                    new_bodies.push(Rule_body { pre: empty_string(), post });
                    assert(strs_view(bodies@).take(j + 1) =~= strs_view(bodies@).take(j as int).push(bodies@[j as int]@));
                    assert(bodies_view(new_bodies@) =~= prev.push(fresh_body(bodies@[j as int]@)));
                    assert(fresh_bodies(strs_view(bodies@).take(j as int).push(bodies@[j as int]@)) =~= fresh_bodies(strs_view(bodies@).take(j as int)).push(fresh_body(bodies@[j as int]@)));
                    assert(bodies_view(new_bodies@) =~= fresh_bodies(strs_view(bodies@).take(j + 1)));
                    j += 1;
                }
                assert(strs_view(bodies@).take(j as int) =~= strs_view(bodies@));
                output = append_rule(output, head, new_bodies);
            },
        }
        i += 1;
    }
    assert(lines.take(i as int) =~= lines);
    Ok(output)
}

proof fn lemma_parse_rules_err(lines: Seq<Seq<char>>, i: int, e: GrammarError)
    requires
        0 < i <= lines.len(),
        parse_rules_spec(lines.take(i)) == Err::<Seq<RuleV>, GrammarError>(e),
    ensures
        parse_rules_spec(lines) == Err::<Seq<RuleV>, GrammarError>(e),
    decreases lines.len() - i,
{
    if i == lines.len() {
        assert(lines.take(i) =~= lines);
    } else {
        assert(lines.take(i + 1).drop_last() =~= lines.take(i));
        lemma_parse_rules_err(lines, i + 1, e);
    }
}

} // verus!
