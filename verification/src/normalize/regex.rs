//! Regular expressions as trees: parsing from text and printing.
use vstd::prelude::*;
use vstd::utf8::is_ascii_chars;
use crate::text::{char_at, char_len, char_string, empty_string, push_char, push_str, string_of};

verus! {

/// A node of a regular expression: a letter of the expression (`var` 0), a
/// letter of a rule that stands for any subexpression (`var` 1), or an
/// operator (`var` 2): `|`, concatenation `++`, `*`, or the empty word
/// `(eps)`. Operators have their operands in `left` and `right`.
pub struct Term {
    pub value: String,
    pub var: i32,
    pub left: Option<Box<Term>>,
    pub right: Option<Box<Term>>,
}

/// The mathematical value of a [`Term`].
pub struct TermV {
    pub value: Seq<char>,
    pub var: i32,
    pub left: Option<Box<TermV>>,
    pub right: Option<Box<TermV>>,
}

pub open spec fn term_view(t: Term) -> TermV
    decreases t,
{
    TermV {
        value: t.value@,
        var: t.var,
        left: match t.left {
            Some(b) => Some(Box::new(term_view(*b))),
            None => None,
        },
        right: match t.right {
            Some(b) => Some(Box::new(term_view(*b))),
            None => None,
        },
    }
}

impl View for Term {
    type V = TermV;

    open spec fn view(&self) -> TermV {
        term_view(*self)
    }
}

/// A copy of a term.
pub fn clone_term(t: &Term) -> (res: Term)
    ensures
        res@ == t@,
    decreases t,
{
    let left = match &t.left {
        Some(b) => Some(Box::new(clone_term(b))),
        None => None,
    };
    let right = match &t.right {
        Some(b) => Some(Box::new(clone_term(b))),
        None => None,
    };
    Term { value: t.value.clone(), var: t.var, left, right }
}

/// Whether two terms are equal.
pub fn term_eq(a: &Term, b: &Term) -> (res: bool)
    ensures
        res == (a@ == b@),
    decreases a,
{
    if a.value != b.value || a.var != b.var {
        return false;
    }
    let l = match (&a.left, &b.left) {
        (Some(x), Some(y)) => term_eq(x, y),
        (None, None) => true,
        _ => false,
    };
    if !l {
        return false;
    }
    match (&a.right, &b.right) {
        (Some(x), Some(y)) => term_eq(x, y),
        (None, None) => true,
        _ => false,
    }
}


/// The operator texts.
pub open spec fn bar_text() -> Seq<char> {
    seq!['|']
}

pub open spec fn concat_text() -> Seq<char> {
    seq!['+', '+']
}

pub open spec fn star_text() -> Seq<char> {
    seq!['*']
}

pub open spec fn eps_text() -> Seq<char> {
    seq!['(', 'e', 'p', 's', ')']
}

/// An operator node without operands.
pub open spec fn op_node(v: Seq<char>) -> TermV {
    TermV { value: v, var: 2, left: None, right: None }
}

/// A node without operands.
pub fn leaf(cs: Vec<char>, var: i32) -> (res: Term)
    ensures
        res@ == (TermV { value: cs@, var, left: None, right: None }),
{
    Term { value: string_of(cs.as_slice()), var, left: None, right: None }
}

/// The operator `|` without operands.
pub fn bar_node() -> (res: Term)
    ensures
        res@ == op_node(bar_text()),
{
    let v = vec!['|'];
    assert(v@ =~= bar_text());
    leaf(v, 2)
}

/// The operator `++` without operands.
pub fn concat_node() -> (res: Term)
    ensures
        res@ == op_node(concat_text()),
{
    let v = vec!['+', '+'];
    assert(v@ =~= concat_text());
    leaf(v, 2)
}

/// The operator `*` without operands.
pub fn star_node() -> (res: Term)
    ensures
        res@ == op_node(star_text()),
{
    let v = vec!['*'];
    assert(v@ =~= star_text());
    leaf(v, 2)
}

/// The empty word.
pub fn eps_node() -> (res: Term)
    ensures
        res@ == op_node(eps_text()),
{
    let v = vec!['(', 'e', 'p', 's', ')'];
    assert(v@ =~= eps_text());
    leaf(v, 2)
}

/// Removes the spaces of an expression.
pub fn strip_spaces(expr: String) -> (res: String)
    requires
        is_ascii_chars(expr@),
    ensures
        res@ == no_spaces(expr@),
{
    let mut nexpr = empty_string();
    let n = char_len(&expr);
    let mut i: usize = 0;
    while i < n
        invariant
            n == expr@.len(),
            i <= n,
            nexpr@ == no_spaces(expr@.take(i as int)),
        decreases n - i,
    {
        let c = char_at(&expr, i);
        assert(expr@.take(i + 1).drop_last() =~= expr@.take(i as int));
        assert(expr@.take(i + 1).last() == c);
        reveal_with_fuel(Seq::<_>::filter, 1);
        assert(no_spaces(expr@.take(i + 1)) == if c == ' ' {
            no_spaces(expr@.take(i as int))
        } else {
            no_spaces(expr@.take(i as int)).push(c)
        });
        if c != ' ' {
            push_char(&mut nexpr, c);
        }
        i += 1;
    }
    assert(expr@.take(n as int) =~= expr@);
    nexpr
}

pub open spec fn not_space() -> spec_fn(char) -> bool {
    |c: char| c != ' '
}

/// The characters of `s` other than spaces.
pub open spec fn no_spaces(s: Seq<char>) -> Seq<char> {
    s.filter(not_space())
}

/// An infix operator at `ptr`: `|` is read, anything else is a
/// concatenation that reads nothing; at the end, the empty word.
pub open spec fn parse_binary_spec(s: Seq<char>, ptr: int, eps: TermV) -> (TermV, int) {
    if ptr < s.len() {
        if s[ptr] == '|' {
            (op_node(bar_text()), ptr + 1)
        } else {
            (op_node(concat_text()), ptr)
        }
    } else {
        (eps, ptr)
    }
}

/// Reads an infix operator.
pub fn parse_binary(expr: String, ptr: usize, eps: Term) -> (res: (Term, usize))
    ensures
        (res.0@, res.1 as int) == parse_binary_spec(expr@, ptr as int, eps@),
{
    if ptr < char_len(&expr) {
        if char_at(&expr, ptr) == '|' {
            return (bar_node(), ptr + 1);
        }
        return (concat_node(), ptr);
    }
    (eps, ptr)
}

/// A `*` at `ptr`, or the empty word.
pub open spec fn parse_unary_spec(s: Seq<char>, ptr: int, eps: TermV) -> (TermV, int) {
    if 0 <= ptr < s.len() && s[ptr] == '*' {
        (op_node(star_text()), ptr + 1)
    } else {
        (eps, ptr)
    }
}

/// Reads a postfix `*`.
pub fn parse_unary(expr: String, ptr: usize, eps: Term) -> (res: (Term, usize))
    ensures
        (res.0@, res.1 as int) == parse_unary_spec(expr@, ptr as int, eps@),
{
    if ptr < char_len(&expr) {
        if char_at(&expr, ptr) == '*' {
            return (star_node(), ptr + 1);
        }
        return (eps, ptr);
    }
    (eps, ptr)
}

/// Why an expression or rule was refused.
#[derive(Clone, Copy, Debug, PartialEq, Eq)]
pub enum RegexError {
    /// A parenthesis is not closed.
    Unbalanced,
    /// A character that is not a letter where a letter is expected.
    ForbiddenSymbol,
    /// A rule has no `=` after its left side.
    MissingEquals,
}

/// ASCII letters: the characters `char::is_alphabetic` accepts among ASCII.
pub open spec fn is_letter(c: char) -> bool {
    ('a' <= c <= 'z') || ('A' <= c <= 'Z')
}

/// Some term of `consts` has the text `v`.
pub open spec fn has_value(consts: Seq<TermV>, v: Seq<char>) -> bool {
    exists|i: int| 0 <= i < consts.len() && consts[i].value == v
}

/// A letter at `ptr`. In the expression (`rule` false) it is a constant and
/// is recorded in `consts`; in a rule it is a constant if the expression has
/// it, else a variable.
pub open spec fn parse_symbol_spec(s: Seq<char>, ptr: int, consts: Seq<TermV>, rule: bool, eps: TermV) -> Result<(TermV, Seq<TermV>, int), RegexError> {
    if 0 <= ptr < s.len() {
        let c = s[ptr];
        if !is_letter(c) {
            Err(RegexError::ForbiddenSymbol)
        } else if !rule {
            let n = TermV { value: seq![c], var: 0, left: None, right: None };
            Ok((n, consts.push(n), ptr + 1))
        } else {
            let n = TermV { value: seq![c], var: if has_value(consts, seq![c]) { 0 } else { 1 }, left: None, right: None };
            Ok((n, consts, ptr + 1))
        }
    } else {
        Ok((eps, consts, ptr))
    }
}

pub open spec fn terms_view(ts: Seq<Term>) -> Seq<TermV> {
    ts.map_values(|t: Term| t@)
}

/// Reads a letter.
pub fn parse_symbol(expr: String, ptr: usize, consts: Vec<Term>, rule: bool, eps: Term) -> (res: Result<(Term, Vec<Term>, usize), RegexError>)
    requires
        is_ascii_chars(expr@),
    ensures
        match parse_symbol_spec(expr@, ptr as int, terms_view(consts@), rule, eps@) {
            Ok((t, cs, p)) => res matches Ok((rt, rcs, rp)) && rt@ == t && terms_view(rcs@) == cs && rp == p,
            Err(e) => res == Err::<(Term, Vec<Term>, usize), RegexError>(e),
        },
{
    let mut consts = consts;
    let ghost c0 = terms_view(consts@);
    if ptr < char_len(&expr) {
        let c = char_at(&expr, ptr);
        let alpha = ('a' <= c && c <= 'z') || ('A' <= c && c <= 'Z');
        if !alpha {
            return Err(RegexError::ForbiddenSymbol);
        }
        if !rule {
            let v = vec![c];
            assert(v@ =~= seq![c]);
            let n = leaf(v, 0);
            consts.push(clone_term(&n));
            assert(terms_view(consts@) =~= c0.push(n@));
            return Ok((n, consts, ptr + 1));
        }
        let cs = char_string(c);
        let mut var: i32 = 1;
        let mut i: usize = 0;
        while i < consts.len()
            invariant
                c0 == terms_view(consts@),
                cs@ == seq![c],
                i <= consts.len(),
                var == if (exists|j: int| 0 <= j < i && c0[j].value == seq![c]) { 0i32 } else { 1i32 },
            decreases consts.len() - i,
        {
            assert(c0[i as int] == consts@[i as int]@);
            if consts[i].value == cs {
                var = 0;
            }
            i += 1;
        }
        let v = vec![c];
        assert(v@ =~= seq![c]);
        let n = leaf(v, var);
        return Ok((n, consts, ptr + 1));
    }
    Ok((eps, consts, ptr))
}

/// Characters that end a (sub)expression.
pub open spec fn is_stop(c: char) -> bool {
    c == '=' || c == ')' || c == '*' || c == '|' || c == '\n'
}

/// `u` with operand `l`.
pub open spec fn with_left(u: TermV, l: TermV) -> TermV {
    TermV { value: u.value, var: u.var, left: Some(Box::new(l)), right: u.right }
}

/// `u` with operands `l` and `r`.
pub open spec fn with_both(u: TermV, l: TermV, r: TermV) -> TermV {
    TermV { value: u.value, var: u.var, left: Some(Box::new(l)), right: Some(Box::new(r)) }
}

/// An expression read from `ptr`: the empty word at a stop character or the
/// end; `( e )`, `( e op e )` or a letter, each possibly followed by `*`.
/// Returns the tree, the constants, and the position after it.
pub open spec fn parse_regex_spec(s: Seq<char>, ptr: int, consts: Seq<TermV>, rule: bool, eps: TermV) -> Result<(TermV, Seq<TermV>, int), RegexError>
    decreases s.len() - ptr,
{
    if ptr < 0 || ptr >= s.len() || is_stop(s[ptr]) {
        Ok((eps, consts, ptr))
    } else if s[ptr] == '(' {
        match parse_regex_spec(s, ptr + 1, consts, rule, eps) {
            Err(e) => Err(e),
            Ok((left, c2, p2)) => if p2 >= s.len() || p2 <= ptr {
                Err(RegexError::Unbalanced)
            } else if s[p2] == ')' {
                let (u, p3) = parse_unary_spec(s, p2 + 1, eps);
                if u != eps {
                    Ok((with_left(u, left), c2, p3))
                } else {
                    Ok((left, c2, p3))
                }
            } else {
                let (b, p3) = parse_binary_spec(s, p2, eps);
                match parse_regex_spec(s, p3, c2, rule, eps) {
                    Err(e) => Err(e),
                    Ok((right, c3, p4)) => {
                        let bin = with_both(b, left, right);
                        if p4 >= s.len() || s[p4] != ')' {
                            Err(RegexError::Unbalanced)
                        } else {
                            let (u, p5) = parse_unary_spec(s, p4 + 1, eps);
                            if u != eps {
                                Ok((with_left(u, bin), c3, p5))
                            } else {
                                Ok((bin, c3, p5))
                            }
                        }
                    },
                }
            },
        }
    } else {
        match parse_symbol_spec(s, ptr, consts, rule, eps) {
            Err(e) => Err(e),
            Ok((sym, c2, p2)) => {
                let (u, p3) = parse_unary_spec(s, p2, eps);
                if u != eps {
                    Ok((with_left(u, sym), c2, p3))
                } else {
                    Ok((sym, c2, p3))
                }
            },
        }
    }
}


/// Reads an expression from `ptr` (see [`parse_regex_spec`]).
pub fn parse_regex(expr: String, ptr: usize, consts: Vec<Term>, rule: bool, eps: Term) -> (res: Result<(Term, Vec<Term>, usize), RegexError>)
    requires
        is_ascii_chars(expr@),
    ensures
        match parse_regex_spec(expr@, ptr as int, terms_view(consts@), rule, eps@) {
            Ok((t, cs, p)) => res matches Ok((rt, rcs, rp)) && rt@ == t && terms_view(rcs@) == cs && rp == p,
            Err(e) => res == Err::<(Term, Vec<Term>, usize), RegexError>(e),
        },
        res matches Ok((_, _, rp)) ==> ptr <= rp && (ptr <= expr@.len() ==> rp <= expr@.len()),
    decreases expr@.len() - ptr,
{
    let n = char_len(&expr);
    if ptr >= n {
        return Ok((eps, consts, ptr));
    }
    let c = char_at(&expr, ptr);
    if c == '=' || c == ')' || c == '*' || c == '|' || c == '\n' {
        return Ok((eps, consts, ptr));
    }
    if c == '(' {
        let (left, consts, p2) = match parse_regex(expr.clone(), ptr + 1, consts, rule, clone_term(&eps)) {
            Err(e) => {
                return Err(e);
            },
            Ok(r) => r,
        };
        if p2 >= n {
            return Err(RegexError::Unbalanced);
        }
        if char_at(&expr, p2) == ')' {
            let (mut unary, p3) = parse_unary(expr.clone(), p2 + 1, clone_term(&eps));
            if !term_eq(&unary, &eps) {
                unary.left = Some(Box::new(left));
                return Ok((unary, consts, p3));
            }
            return Ok((left, consts, p3));
        }
        let (mut binary, p3) = parse_binary(expr.clone(), p2, clone_term(&eps));
        let (right, consts, p4) = match parse_regex(expr.clone(), p3, consts, rule, clone_term(&eps)) {
            Err(e) => {
                return Err(e);
            },
            Ok(r) => r,
        };
        let ghost bv = binary@;
        let ghost lv = left@;
        let ghost rv = right@;
        binary.left = Some(Box::new(left));
        binary.right = Some(Box::new(right));
        assert(binary@ == with_both(bv, lv, rv));
        if p4 >= n || char_at(&expr, p4) != ')' {
            return Err(RegexError::Unbalanced);
        }
        let (mut unary, p5) = parse_unary(expr.clone(), p4 + 1, clone_term(&eps));
        if !term_eq(&unary, &eps) {
            let ghost uv = unary@;
            let ghost bnv = binary@;
            unary.left = Some(Box::new(binary));
            assert(unary@ == with_left(uv, bnv));
            return Ok((unary, consts, p5));
        }
        return Ok((binary, consts, p5));
    }
    let (symbol, consts, p2) = match parse_symbol(expr.clone(), ptr, consts, rule, clone_term(&eps)) {
        Err(e) => {
            return Err(e);
        },
        Ok(r) => r,
    };
    let (mut unary, p3) = parse_unary(expr.clone(), p2, clone_term(&eps));
    if !term_eq(&unary, &eps) {
        unary.left = Some(Box::new(symbol));
        return Ok((unary, consts, p3));
    }
    Ok((symbol, consts, p3))
}

/// A rule `left = right` read from `ptr`; `None` stands for a rule that ends
/// right after its left side.
pub open spec fn parse_rule_spec(s: Seq<char>, ptr: int, consts: Seq<TermV>, rule: bool, eps: TermV) -> Option<Result<(TermV, TermV), RegexError>> {
    match parse_regex_spec(s, ptr, consts, rule, eps) {
        Err(e) => Some(Err(e)),
        Ok((left, _, p)) => if p < 0 || p >= s.len() {
            None
        } else if s[p] != '=' {
            Some(Err(RegexError::MissingEquals))
        } else {
            match parse_regex_spec(s, p + 1, consts, rule, eps) {
                Err(e) => Some(Err(e)),
                Ok((right, _, _)) => Some(Ok((left, right))),
            }
        },
    }
}

/// Reads a rule `left = right` (see [`parse_rule_spec`]); `None` for a rule
/// that ends right after its left side.
pub fn parse_rule(expr: String, ptr: usize, consts: Vec<Term>, rule: bool, eps: Term) -> (res: Option<Result<(Term, Term), RegexError>>)
    requires
        is_ascii_chars(expr@),
    ensures
        match parse_rule_spec(expr@, ptr as int, terms_view(consts@), rule, eps@) {
            Some(Ok((l, r))) => res matches Some(Ok((rl, rr))) && rl@ == l && rr@ == r,
            Some(Err(e)) => res == Some(Err::<(Term, Term), RegexError>(e)),
            None => res is None,
        },
{
    let n = char_len(&expr);
    let (left, _, p) = match parse_regex(expr.clone(), ptr, clone_terms(&consts), rule, clone_term(&eps)) {
        Err(e) => {
            return Some(Err(e));
        },
        Ok(r) => r,
    };
    if p >= n {
        return None;
    }
    if char_at(&expr, p) != '=' {
        return Some(Err(RegexError::MissingEquals));
    }
    let (right, _, _) = match parse_regex(expr.clone(), p + 1, consts, rule, eps) {
        Err(e) => {
            return Some(Err(e));
        },
        Ok(r) => r,
    };
    Some(Ok((left, right)))
}

/// A copy of a list of terms.
pub fn clone_terms(ts: &Vec<Term>) -> (res: Vec<Term>)
    ensures
        terms_view(res@) == terms_view(ts@),
{
    let mut res: Vec<Term> = Vec::new();
    let mut i: usize = 0;
    while i < ts.len()
        invariant
            i <= ts.len(),
            terms_view(res@) == terms_view(ts@).take(i as int),
        decreases ts.len() - i,
    {
        let ghost prev = terms_view(res@);
        let t = clone_term(&ts[i]);
        res.push(t);
        assert(terms_view(res@) =~= prev.push(t@));
        assert(terms_view(ts@).take(i + 1) =~= terms_view(ts@).take(i as int).push(ts@[i as int]@));
        i += 1;
    }
    assert(terms_view(ts@).take(i as int) =~= terms_view(ts@));
    res
}

/// Whether a node prints with parentheses around it: the binary operators,
/// and a `*` applied to a `*`.
pub open spec fn double_star(r: TermV) -> bool {
    r.value == star_text() && r.left is Some && r.left.unwrap().value == star_text()
}

/// The printed form of an expression: operands around their operator,
/// binary operations in parentheses, `**` written `(*)*`... as the tree has
/// them.
pub open spec fn reg_text(r: TermV) -> Seq<char>
    decreases r,
{
    let open = r.value == bar_text() || r.value == concat_text() || double_star(r);
    let close_bin = r.value == bar_text() || r.value == concat_text();
    (if open { seq!['('] } else { Seq::empty() })
        + (match r.left {
            Some(l) => reg_text(*l),
            None => Seq::empty(),
        })
        + (if double_star(r) { seq![')'] } else { Seq::empty() })
        + r.value
        + (match r.right {
            Some(x) => reg_text(*x),
            None => Seq::empty(),
        })
        + (if close_bin { seq![')'] } else { Seq::empty() })
}

/// Prints an expression.
pub fn reg_to_string(reg: Term) -> (res: String)
    ensures
        res@ == reg_text(reg@),
{
    reg_text_of(&reg)
}

/// The printed form of the expression behind a reference.
pub(crate) fn reg_text_of(reg: &Term) -> (res: String)
    ensures
        res@ == reg_text(reg@),
    decreases reg,
{
    let bar = string_of(&['|']);
    let cat = string_of(&['+', '+']);
    let st = string_of(&['*']);
    proof {
        assert(bar@ =~= bar_text());
        assert(cat@ =~= concat_text());
        assert(st@ =~= star_text());
    }
    let dstar = reg.value == st && match &reg.left {
        Some(l) => l.value == st,
        None => false,
    };
    let mut out = empty_string();
    let ghost v = reg@;
    if reg.value == bar || reg.value == cat || dstar {
        push_char(&mut out, '(');
    }
    match &reg.left {
        Some(l) => {
            let t = reg_text_of(l);
            push_str(&mut out, &t);
        },
        None => {},
    }
    if dstar {
        push_char(&mut out, ')');
    }
    push_str(&mut out, &reg.value);
    match &reg.right {
        Some(x) => {
            let t = reg_text_of(x);
            push_str(&mut out, &t);
        },
        None => {},
    }
    if reg.value == bar || reg.value == cat {
        push_char(&mut out, ')');
    }
    assert(out@ =~= reg_text(v));
    out
}

} // verus!
