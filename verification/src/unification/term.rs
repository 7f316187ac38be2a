//! Terms: constructors with arguments, and variables.
use vstd::prelude::*;
use crate::text::{push_char, push_str};

verus! {

/// A term: a constructor (`var` 0) applied to `children`, or a variable
/// (`var` 1).
pub struct Term {
    pub value: String,
    pub var: i32,
    pub children: Vec<Term>,
}

/// The mathematical value of a [`Term`].
pub struct TermV {
    pub value: Seq<char>,
    pub var: i32,
    pub children: Seq<TermV>,
}

/// A term without name and arguments.
pub open spec fn blank() -> TermV {
    TermV { value: Seq::empty(), var: 0, children: Seq::empty() }
}

pub open spec fn term_view(t: Term) -> TermV
    decreases t,
{
    TermV {
        value: t.value@,
        var: t.var,
        children: Seq::new(t.children@.len(), |i: int| if 0 <= i < t.children@.len() { term_view(t.children@[i]) } else { blank() }),
    }
}

/// The values of a list of terms.
pub open spec fn terms_view(ts: Seq<Term>) -> Seq<TermV> {
    Seq::new(ts.len(), |i: int| term_view(ts[i]))
}

impl View for Term {
    type V = TermV;

    open spec fn view(&self) -> TermV {
        term_view(*self)
    }
}

pub proof fn lemma_children_view(t: Term)
    ensures
        t@.children == terms_view(t.children@),
{
    assert(t@.children =~= terms_view(t.children@));
}

/// A copy of a term.
pub fn clone_term(t: &Term) -> (res: Term)
    ensures
        res@ == t@,
    decreases t,
{
    let mut children: Vec<Term> = Vec::new();
    let mut i: usize = 0;
    while i < t.children.len()
        invariant
            i <= t.children.len(),
            terms_view(children@) == terms_view(t.children@).take(i as int),
        decreases t.children.len() - i,
    {
        let c = clone_term(&t.children[i]);
        let ghost prev = terms_view(children@);
        children.push(c);
        assert(terms_view(children@) =~= prev.push(c@));
        assert(terms_view(t.children@).take(i + 1) =~= terms_view(t.children@).take(i as int).push(t.children@[i as int]@));
        i += 1;
    }
    assert(terms_view(t.children@).take(i as int) =~= terms_view(t.children@));
    let res = Term { value: t.value.clone(), var: t.var, children };
    proof {
        lemma_children_view(res);
        lemma_children_view(*t);
    }
    res
}

/// A copy of a list of terms.
pub fn clone_terms(ts: &Vec<Term>) -> (res: Vec<Term>)
    ensures
        terms_view(res@) == terms_view(ts@),
{
    let mut res: Vec<Term> = Vec::new();
    let mut i: usize = 0;
    while i < ts.len()
        invariant
            i <= ts.len(),
            terms_view(res@) == terms_view(ts@).take(i as int),
        decreases ts.len() - i,
    {
        let c = clone_term(&ts[i]);
        let ghost prev = terms_view(res@);
        res.push(c);
        assert(terms_view(res@) =~= prev.push(c@));
        assert(terms_view(ts@).take(i + 1) =~= terms_view(ts@).take(i as int).push(ts@[i as int]@));
        i += 1;
    }
    assert(terms_view(ts@).take(i as int) =~= terms_view(ts@));
    res
}

/// The written form of a term: a variable is its name, a constructor its
/// name with its arguments in parentheses, separated by `, `.
pub open spec fn full_text(t: TermV) -> Seq<char>
    decreases t,
{
    if t.var == 0 {
        t.value + seq!['('] + join_text(t.children) + seq![')']
    } else {
        t.value
    }
}

/// The written forms of `cs`, separated by `, `.
pub open spec fn join_text(cs: Seq<TermV>) -> Seq<char>
    decreases cs,
{
    if cs.len() == 0 {
        Seq::empty()
    } else if cs.len() == 1 {
        full_text(cs[0])
    } else {
        join_text(cs.subrange(0, cs.len() - 1)) + seq![',', ' '] + full_text(cs[cs.len() - 1])
    }
}

/// The written form of the term behind a reference.
pub fn text_of(t: &Term) -> (res: String)
    ensures
        res@ == full_text(t@),
    decreases t,
{
    let mut out = t.value.clone();
    if t.var == 0 {
        let ghost cv = terms_view(t.children@);
        proof {
            lemma_children_view(*t);
        }
        push_char(&mut out, '(');
        let mut i: usize = 0;
        while i < t.children.len()
            invariant
                i <= t.children.len(),
                cv == terms_view(t.children@),
                out@ == t.value@ + seq!['('] + join_text(cv.take(i as int)),
            decreases t.children.len() - i,
        {
            let s = text_of(&t.children[i]);
            assert(cv[i as int] == t.children@[i as int]@);
            let ghost before = out@;
            if i > 0 {
                push_char(&mut out, ',');
                push_char(&mut out, ' ');
            }
            push_str(&mut out, &s);
            let ghost pre = cv.take(i + 1);
            assert(pre.subrange(0, pre.len() - 1) =~= cv.take(i as int));
            assert(pre[pre.len() - 1] == cv[i as int]);
            if i == 0 {
                assert(out@ =~= t.value@ + seq!['('] + join_text(pre));
            } else {
                assert(out@ =~= t.value@ + seq!['('] + join_text(pre));
            }
            i += 1;
        }
        assert(cv.take(i as int) =~= cv);
        push_char(&mut out, ')');
    }
    out
}

/// The written form of a term.
pub fn full_term(term: Term) -> (res: String)
    ensures
        res@ == full_text(term@),
{
    text_of(&term)
}

} // verus!
