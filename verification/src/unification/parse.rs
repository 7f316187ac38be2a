//! Reading a term from text: `name(arg, arg, ...)` for a constructor, a
//! bare name for a variable.
use vstd::prelude::*;
use crate::unification::term::{Term, TermV, terms_view, lemma_children_view};
use crate::text::{alphabetic, is_alphabetic, is_digit, is_digit_exec, char_at, char_len, push_char, empty_string};

verus! {

/// Why a text is not a term.
#[derive(Clone, Copy, Debug, PartialEq, Eq)]
pub enum ParseError {
    /// Parentheses do not balance.
    Unbalanced,
    /// A `(` has no constructor name before it.
    NamelessConstructor,
    /// A `,` has no term before it.
    EmptyTerm,
    /// A name starts with a digit.
    DigitStart,
    /// A character that is neither a letter nor a digit.
    ForbiddenSymbol,
    /// An expression is empty.
    EmptyExpression,
    /// A character before the start or past the end of the text would be
    /// read.
    OutOfRange,
}

/// A variable named `name`.
pub open spec fn var_term(name: Seq<char>) -> TermV {
    TermV { value: name, var: 1, children: Seq::empty() }
}

/// Reading the arguments of a constructor from `ptr` (just after its `(`):
/// the state is the position, the arguments read, the name being read and
/// whether a constructor was just read. Names are letters and digits, not
/// starting with a digit; spaces are skipped; a name followed by `(` is a
/// constructor, otherwise a variable; `,` ends an argument and `)` the list.
pub open spec fn cons_loop(s: Seq<char>, ptr: int, children: Seq<TermV>, curr: Seq<char>, saw: bool) -> Result<(Seq<TermV>, int), ParseError>
    decreases s.len() - ptr, 0int,
{
    let n = s.len();
    if ptr < 0 || n == 0 {
        Err(ParseError::OutOfRange)
    } else if ptr <= n - 1 && s[ptr] != ')' {
        if s[ptr] == ' ' {
            cons_loop(s, ptr + 1, children, curr, saw)
        } else if ptr == n - 1 {
            Err(ParseError::Unbalanced)
        } else if s[ptr] == '(' {
            if curr.len() == 0 {
                Err(ParseError::NamelessConstructor)
            } else {
                match parse_cons_spec(s, ptr + 1) {
                    Err(e) => Err(e),
                    Ok((kids, p2)) => if p2 <= ptr || p2 > n {
                        Err(ParseError::OutOfRange)
                    } else {
                        cons_loop(s, p2, children.push(TermV { value: curr, var: 0, children: kids }), curr, true)
                    },
                }
            }
        } else if s[ptr] == ',' {
            if curr.len() == 0 {
                Err(ParseError::EmptyTerm)
            } else {
                cons_loop(s, ptr + 1, if !saw { children.push(var_term(curr)) } else { children }, Seq::empty(), false)
            }
        } else if is_digit(s[ptr]) && curr.len() == 0 {
            Err(ParseError::DigitStart)
        } else if !is_digit(s[ptr]) && !alphabetic(s[ptr]) {
            Err(ParseError::ForbiddenSymbol)
        } else {
            cons_loop(s, ptr + 1, children, curr.push(s[ptr]), saw)
        }
    } else if curr.len() == 0 && (ptr == 0 || ptr - 1 >= n) {
        Err(ParseError::OutOfRange)
    } else if curr.len() == 0 && s[ptr - 1] != '(' {
        Err(ParseError::EmptyExpression)
    } else if ptr == n {
        Err(ParseError::Unbalanced)
    } else if ptr + 1 > usize::MAX {
        Err(ParseError::OutOfRange)
    } else {
        Ok((if curr.len() != 0 && !saw { children.push(var_term(curr)) } else { children }, ptr + 1))
    }
}

/// The arguments of a constructor read from `ptr`, and the position after
/// its `)` (see [`cons_loop`]).
pub open spec fn parse_cons_spec(s: Seq<char>, ptr: int) -> Result<(Seq<TermV>, int), ParseError>
    decreases s.len() - ptr, 1int,
{
    cons_loop(s, ptr, Seq::empty(), Seq::empty(), false)
}

/// The value of a result of [`parse_constructor`].
pub open spec fn cons_view(r: Result<(Vec<Term>, usize), ParseError>) -> Result<(Seq<TermV>, int), ParseError> {
    match r {
        Ok((c, p)) => Ok((terms_view(c@), p as int)),
        Err(e) => Err(e),
    }
}

/// Reads the arguments of a constructor (see [`parse_cons_spec`]).
#[verifier::loop_isolation(false)]
pub fn parse_constructor(expr: String, ptr: usize) -> (res: Result<(Vec<Term>, usize), ParseError>)
    ensures
        cons_view(res) == parse_cons_spec(expr@, ptr as int),
        res matches Ok((_, p)) ==> ptr < p && p <= expr@.len(),
    decreases expr@.len() - ptr,
{
    let ghost s = expr@;
    let n = char_len(&expr);
    if n == 0 {
        return Err(ParseError::OutOfRange);
    }
    let ghost goal = parse_cons_spec(s, ptr as int);
    let ghost ptr0 = ptr;
    let mut ptr = ptr;
    let mut children: Vec<Term> = Vec::new();
    let mut curr = empty_string();
    let mut saw = false;
    assert(terms_view(children@) =~= Seq::<TermV>::empty());
    while ptr <= n - 1 && char_at(&expr, ptr) != ')'
        invariant
            n == s.len(),
            s == expr@,
            n > 0,
            goal == cons_loop(s, ptr as int, terms_view(children@), curr@, saw),
            ptr >= ptr0,
            ptr <= n || (ptr == ptr0 && curr@.len() == 0),
        decreases n - ptr,
    {
        let c = char_at(&expr, ptr);
        if c == ' ' {
            ptr += 1;
            continue;
        }
        if ptr == n - 1 {
            return Err(ParseError::Unbalanced);
        }
        if c == '(' {
            if char_len(&curr) == 0 {
                return Err(ParseError::NamelessConstructor);
            }
            match parse_constructor(expr.clone(), ptr + 1) {
                Err(e) => {
                    return Err(e);
                },
                Ok((kids, p2)) => {
                    let t = Term { value: curr.clone(), var: 0, children: kids };
                    proof {
                        lemma_children_view(t);
                    }
                    let ghost prev = terms_view(children@);
                    children.push(t);
                    assert(terms_view(children@) =~= prev.push(t@));
                    ptr = p2;
                    saw = true;
                },
            }
            continue;
        }
        if c == ',' {
            if char_len(&curr) == 0 {
                return Err(ParseError::EmptyTerm);
            }
            if !saw {
                let t = Term { value: curr.clone(), var: 1, children: Vec::new() };
                proof {
                    lemma_children_view(t);
                    assert(t@ =~= var_term(curr@));
                }
                let ghost prev = terms_view(children@);
                children.push(t);
                assert(terms_view(children@) =~= prev.push(t@));
            }
            curr = empty_string();
            ptr += 1;
            saw = false;
            continue;
        }
        let d = is_digit_exec(c);
        if d && char_len(&curr) == 0 {
            return Err(ParseError::DigitStart);
        }
        if !d && !is_alphabetic(c) {
            return Err(ParseError::ForbiddenSymbol);
        }
        push_char(&mut curr, c);
        ptr += 1;
    }
    if char_len(&curr) == 0 {
        if ptr == 0 || ptr - 1 >= n {
            return Err(ParseError::OutOfRange);
        }
        if char_at(&expr, ptr - 1) != '(' {
            return Err(ParseError::EmptyExpression);
        }
    }
    if ptr == n {
        return Err(ParseError::Unbalanced);
    }
    if ptr == usize::MAX {
        return Err(ParseError::OutOfRange);
    }
    if char_len(&curr) != 0 && !saw {
        let t = Term { value: curr, var: 1, children: Vec::new() };
        proof {
            lemma_children_view(t);
        }
        let ghost prev = terms_view(children@);
        children.push(t);
        assert(terms_view(children@) =~= prev.push(t@));
    }
    Ok((children, ptr + 1))
}

/// The first position from `p` on that is not a space, or the end.
pub open spec fn skip_spaces(s: Seq<char>, p: int) -> int
    decreases s.len() - p,
{
    if 0 <= p < s.len() && s[p] == ' ' {
        skip_spaces(s, p + 1)
    } else {
        p
    }
}

/// Reading a term from `ptr` with the name `curr` read so far: the name
/// runs up to a `(`, which makes it a constructor whose arguments follow,
/// else to the end, which makes it a variable. Spaces before each
/// character of the name are skipped.
pub open spec fn start_loop(s: Seq<char>, ptr: int, curr: Seq<char>) -> Result<TermV, ParseError>
    decreases s.len() - ptr,
{
    let n = s.len();
    if ptr < 0 || n == 0 {
        Err(ParseError::OutOfRange)
    } else if ptr <= n - 1 && s[ptr] != '(' {
        let p1 = skip_spaces(s, ptr);
        if p1 < ptr || p1 >= n {
            Err(ParseError::OutOfRange)
        } else if is_digit(s[p1]) && curr.len() == 0 {
            Err(ParseError::DigitStart)
        } else if !is_digit(s[p1]) && !alphabetic(s[p1]) {
            Err(ParseError::ForbiddenSymbol)
        } else {
            start_loop(s, p1 + 1, curr.push(s[p1]))
        }
    } else if ptr <= n - 1 && s[ptr] == '(' {
        match parse_cons_spec(s, ptr + 1) {
            Err(e) => Err(e),
            Ok((kids, _)) => Ok(TermV { value: curr, var: 0, children: kids }),
        }
    } else if curr.len() == 0 {
        Err(ParseError::EmptyExpression)
    } else {
        Ok(var_term(curr))
    }
}

proof fn lemma_skip_spaces(s: Seq<char>, p: int)
    requires
        0 <= p,
    ensures
        skip_spaces(s, p) >= p,
        skip_spaces(s, p) < s.len() ==> s[skip_spaces(s, p)] != ' ',
        forall|k: int| p <= k < skip_spaces(s, p) ==> s[k] == ' ',
    decreases s.len() - p,
{
    if 0 <= p < s.len() && s[p] == ' ' {
        lemma_skip_spaces(s, p + 1);
    }
}

/// Reads a term from a whole text (see [`start_loop`]).
#[verifier::loop_isolation(false)]
pub fn start_parse(expr: String) -> (res: Result<Term, ParseError>)
    ensures
        match start_loop(expr@, 0, Seq::empty()) {
            Ok(t) => res matches Ok(r) && r@ == t,
            Err(e) => res == Err::<Term, ParseError>(e),
        },
{
    let ghost s = expr@;
    let n = char_len(&expr);
    if n == 0 {
        return Err(ParseError::OutOfRange);
    }
    let ghost goal = start_loop(s, 0, Seq::empty());
    let mut curr = empty_string();
    let mut ptr: usize = 0;
    while ptr <= n - 1 && char_at(&expr, ptr) != '('
        invariant
            n == s.len(),
            s == expr@,
            n > 0,
            goal == start_loop(s, ptr as int, curr@),
        decreases n - ptr,
    {
        proof {
            lemma_skip_spaces(s, ptr as int);
        }
        let ghost p0 = ptr;
        while ptr <= n - 1 && char_at(&expr, ptr) == ' '
            invariant
                n == s.len(),
                s == expr@,
                p0 <= ptr <= skip_spaces(s, p0 as int),
                skip_spaces(s, p0 as int) == skip_spaces(s, ptr as int),
            decreases n - ptr,
        {
            ptr += 1;
        }
        assert(ptr >= n || s[ptr as int] != ' ');
        assert(skip_spaces(s, ptr as int) == ptr as int);
        assert(ptr == skip_spaces(s, p0 as int));
        if ptr >= n {
            return Err(ParseError::OutOfRange);
        }
        let c = char_at(&expr, ptr);
        let d = is_digit_exec(c);
        if d && char_len(&curr) == 0 {
            return Err(ParseError::DigitStart);
        }
        if !d && !is_alphabetic(c) {
            return Err(ParseError::ForbiddenSymbol);
        }
        push_char(&mut curr, c);
        ptr += 1;
    }
    if ptr <= n - 1 && char_at(&expr, ptr) == '(' {
        return match parse_constructor(expr.clone(), ptr + 1) {
            Err(e) => Err(e),
            Ok((kids, _)) => {
                let t = Term { value: curr, var: 0, children: kids };
                proof {
                    lemma_children_view(t);
                }
                Ok(t)
            },
        };
    }
    if char_len(&curr) == 0 {
        return Err(ParseError::EmptyExpression);
    }
    let t = Term { value: curr, var: 1, children: Vec::new() };
    proof {
        lemma_children_view(t);
        assert(t@.children =~= Seq::<TermV>::empty());
        assert(t@ == var_term(t.value@));
    }
    Ok(t)
}

} // verus!
