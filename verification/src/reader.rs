//! Reading s-expressions from text.
//!
//! The reader walks the text once, keeping a stack of the lists that are open.
//! An opening parenthesis opens a list; a closing one closes the innermost
//! list and adds it to the list around it, and the outermost list, once
//! closed, is the result. Between them stand atoms:
//! - a string: a double quote, then everything up to the next double quote
//!   (there are no escapes);
//! - a number: a digit or `-`, then the digits that follow;
//! - a symbol: any other character that is not white space, then everything
//!   up to the next space (only `' '` ends a symbol, not a parenthesis or a
//!   line break).
//!
//! A string and a symbol also consume the character that ends them.
//! Text that never closes its first list reads as the empty list.
use vstd::prelude::*;

use crate::sexpr::{items, lemma_list_view, list, num, quoted, sym, views, Sexpr, SpecSexpr, A};
use crate::text::{
    chars_of, is_digit, is_whitespace, parse_i32, spec_is_whitespace, spec_parse_i32, string_of,
};

verus! {

/// Why a text is no s-expression.
#[derive(Clone, Copy, Debug, PartialEq, Eq)]
pub enum ParseError {
    /// A closing parenthesis with no list open.
    UnmatchedParenthesis,
    /// An atom with no list open to hold it.
    AtomOutsideList,
    /// A number that `i32` cannot hold, or a `-` with no digits after it.
    InvalidNumber,
}

/// The first index from `i` on whose character meets `stop`, or the length of `s`.
pub open spec fn scan(s: Seq<char>, i: int, stop: spec_fn(char) -> bool) -> int
    decreases s.len() - i,
{
    if i >= s.len() {
        s.len() as int
    } else if stop(s[i]) {
        i
    } else {
        scan(s, i + 1, stop)
    }
}

/// Where a string that starts before `i` ends: at the next double quote.
pub open spec fn quote_end(s: Seq<char>, i: int) -> int {
    scan(s, i, |c: char| c == '"')
}

/// Where a number whose digits go on from `i` ends.
pub open spec fn digits_end(s: Seq<char>, i: int) -> int {
    scan(s, i, |c: char| !is_digit(c))
}

/// Where a symbol that goes on from `i` ends: at the next space.
pub open spec fn space_end(s: Seq<char>, i: int) -> int {
    scan(s, i, |c: char| c == ' ')
}

pub proof fn lemma_scan(s: Seq<char>, i: int, stop: spec_fn(char) -> bool)
    ensures
        i <= s.len() ==> i <= scan(s, i, stop) <= s.len(),
        forall|k: int| i <= k < scan(s, i, stop) && 0 <= k ==> !stop(#[trigger] s[k]),
        0 <= i && scan(s, i, stop) < s.len() ==> stop(s[scan(s, i, stop)]),
    decreases s.len() - i,
{
    if i < s.len() && !stop(s[i]) {
        lemma_scan(s, i + 1, stop);
    }
}

/// Where reading goes on after a string or symbol that ends at `j`: past the
/// character that ended it, if there is one.
pub open spec fn after(s: Seq<char>, j: int) -> int {
    if j < s.len() {
        j + 1
    } else {
        j
    }
}

/// `stack` with `e` added to its innermost list.
pub open spec fn push_top(stack: Seq<Seq<SpecSexpr>>, e: SpecSexpr) -> Seq<Seq<SpecSexpr>> {
    stack.update(stack.len() - 1, stack.last().push(e))
}

/// The result of reading `s` from index `i` on, with the lists `stack` open.
pub open spec fn read_from(s: Seq<char>, i: int, stack: Seq<Seq<SpecSexpr>>) -> Result<
    SpecSexpr,
    ParseError,
>
    decreases s.len() - i,
{
    if i >= s.len() {
        Ok(list(Seq::empty()))
    } else {
        let c = s[i];
        if c == '(' {
            read_from(s, i + 1, stack.push(Seq::empty()))
        } else if c == ')' {
            if stack.len() == 0 {
                Err(ParseError::UnmatchedParenthesis)
            } else if stack.len() == 1 {
                Ok(list(stack[0]))
            } else {
                read_from(s, i + 1, push_top(stack.drop_last(), list(stack.last())))
            }
        } else if c == '"' {
            let j = quote_end(s, i + 1);
            if stack.len() == 0 {
                Err(ParseError::AtomOutsideList)
            } else {
                proof {
                    lemma_scan(s, i + 1, |c: char| c == '"');
                }
                read_from(s, after(s, j), push_top(stack, quoted(s.subrange(i + 1, j))))
            }
        } else if is_digit(c) || c == '-' {
            let j = digits_end(s, i + 1);
            match spec_parse_i32(s.subrange(i, j)) {
                None => Err(ParseError::InvalidNumber),
                Some(n) => if stack.len() == 0 {
                    Err(ParseError::AtomOutsideList)
                } else {
                    proof {
                        lemma_scan(s, i + 1, |c: char| !is_digit(c));
                    }
                    read_from(s, j, push_top(stack, num(n)))
                },
            }
        } else if spec_is_whitespace(c) {
            read_from(s, i + 1, stack)
        } else {
            let j = space_end(s, i + 1);
            if stack.len() == 0 {
                Err(ParseError::AtomOutsideList)
            } else {
                proof {
                    lemma_scan(s, i + 1, |c: char| c == ' ');
                }
                read_from(s, after(s, j), push_top(stack, sym(s.subrange(i, j))))
            }
        }
    }
}

/// The result of reading the text `s`.
pub open spec fn spec_read(s: Seq<char>) -> Result<SpecSexpr, ParseError> {
    read_from(s, 0, Seq::empty())
}

/// The first index from `from` on that holds a double quote, or the end.
fn find_quote(cs: &Vec<char>, from: usize) -> (j: usize)
    requires
        from <= cs@.len(),
    ensures
        j == quote_end(cs@, from as int),
{
    let mut j = from;
    while j < cs.len() && cs[j] != '"'
        invariant
            from <= j <= cs@.len(),
            quote_end(cs@, from as int) == quote_end(cs@, j as int),
        decreases cs@.len() - j,
    {
        j = j + 1;
    }
    j
}

/// The first index from `from` on that holds no digit, or the end.
fn find_non_digit(cs: &Vec<char>, from: usize) -> (j: usize)
    requires
        from <= cs@.len(),
    ensures
        j == digits_end(cs@, from as int),
{
    let mut j = from;
    while j < cs.len() && '0' <= cs[j] && cs[j] <= '9'
        invariant
            from <= j <= cs@.len(),
            digits_end(cs@, from as int) == digits_end(cs@, j as int),
        decreases cs@.len() - j,
    {
        j = j + 1;
    }
    j
}

/// The first index from `from` on that holds a space, or the end.
fn find_space(cs: &Vec<char>, from: usize) -> (j: usize)
    requires
        from <= cs@.len(),
    ensures
        j == space_end(cs@, from as int),
{
    let mut j = from;
    while j < cs.len() && cs[j] != ' '
        invariant
            from <= j <= cs@.len(),
            space_end(cs@, from as int) == space_end(cs@, j as int),
        decreases cs@.len() - j,
    {
        j = j + 1;
    }
    j
}

/// The views of the lists on `stack`.
pub open spec fn stack_holds(stack: Seq<Sexpr>, sv: Seq<Seq<SpecSexpr>>) -> bool {
    &&& stack.len() == sv.len()
    &&& forall|k: int| 0 <= k < sv.len() ==> #[trigger] stack[k]@ == list(sv[k])
}

/// Adds `v` to the innermost open list: the last item of `stack`, which
/// must be a list.
fn push_top_exec(stack: &mut Vec<Sexpr>, v: Sexpr)
    requires
        old(stack)@.len() > 0,
        old(stack)@.last()@ is List,
    ensures
        final(stack)@.len() == old(stack)@.len(),
        forall|m: int| 0 <= m < old(stack)@.len() - 1 ==> #[trigger] final(stack)@[m] == old(stack)@[m],
        final(stack)@.last()@ == list(items(old(stack)@.last()@).push(v@)),
{
    let mut top = stack.pop().unwrap();
    top.push(v);
    stack.push(top);
}

/// Adding to the innermost list keeps the stack holding the open lists.
proof fn lemma_push_top_holds(
    before: Seq<Sexpr>,
    after: Seq<Sexpr>,
    sv: Seq<Seq<SpecSexpr>>,
    v: SpecSexpr,
)
    requires
        before.len() > 0,
        stack_holds(before, sv),
        after.len() == before.len(),
        forall|m: int| 0 <= m < before.len() - 1 ==> #[trigger] after[m] == before[m],
        after.last()@ == list(items(before.last()@).push(v)),
    ensures
        stack_holds(after, push_top(sv, v)),
{
    let k = before.len() - 1;
    assert(before[k]@ == list(sv[k]));
    assert forall|m: int| 0 <= m < push_top(sv, v).len() implies #[trigger] after[m]@ == list(
        push_top(sv, v)[m],
    ) by {
        if m < k {
            assert(after[m] == before[m]);
        }
    }
}

/// Reads an s-expression from `s`, or says why `s` holds none.
pub fn try_parse(s: &str) -> (r: Result<Sexpr, ParseError>)
    ensures
        match r {
            Ok(e) => spec_read(s@) == Ok::<SpecSexpr, ParseError>(e@),
            Err(err) => spec_read(s@) == Err::<SpecSexpr, ParseError>(err),
        },
{
    let cs = chars_of(s);
    let n = cs.len();
    let mut stack: Vec<Sexpr> = Vec::new();
    let ghost mut sv: Seq<Seq<SpecSexpr>> = Seq::empty();
    let mut i: usize = 0;
    while i < n
        invariant
            cs@ == s@,
            n == cs@.len(),
            i <= n,
            stack_holds(stack@, sv),
            read_from(cs@, i as int, sv) == spec_read(s@),
        decreases n - i,
    {
        let c = cs[i];
        if c == '(' {
            let e: Vec<Sexpr> = Vec::new();
            proof {
                lemma_list_view(e);
            }
            stack.push(Sexpr::List(e));
            proof {
                assert(views(e@) =~= Seq::<SpecSexpr>::empty());
                sv = sv.push(Seq::empty());
                assert(stack_holds(stack@, sv)) by {
                    assert forall|m: int| 0 <= m < sv.len() implies #[trigger] stack@[m]@ == list(
                        sv[m],
                    ) by {}
                }
            }
            i = i + 1;
        } else if c == ')' {
            let ghost before = stack@;
            match stack.pop() {
                None => {
                    return Err(ParseError::UnmatchedParenthesis);
                },
                Some(top) => {
                    assert(top@ == list(sv.last()));
                    if stack.len() == 0 {
                        return Ok(top);
                    }
                    let ghost rest = sv.drop_last();
                    assert(stack_holds(stack@, rest)) by {
                        assert forall|m: int| 0 <= m < rest.len() implies #[trigger] stack@[m]@
                            == list(rest[m]) by {
                            assert(stack@[m] == before[m]);
                        }
                    }
                    let ghost before2 = stack@;
                    assert(stack@.last() == stack@[stack@.len() - 1]);
                    push_top_exec(&mut stack, top);
                    proof {
                        lemma_push_top_holds(before2, stack@, rest, top@);
                    }
                    proof {
                        sv = push_top(rest, list(sv.last()));
                    }
                    i = i + 1;
                }
            }
        } else if c == '"' {
            let j = find_quote(&cs, i + 1);
            proof {
                lemma_scan(cs@, i + 1, |c: char| c == '"');
            }
            let text = string_of(&cs, i + 1, j);
            if stack.len() == 0 {
                return Err(ParseError::AtomOutsideList);
            }
            let atom = Sexpr::Atom(A::String(text));
            let item = atom;
            let ghost iv = item@;
            let ghost before2 = stack@;
            assert(stack@.last() == stack@[stack@.len() - 1]);
            push_top_exec(&mut stack, item);
            proof {
                lemma_push_top_holds(before2, stack@, sv, iv);
            }
            proof {
                sv = push_top(sv, quoted(cs@.subrange(i + 1, j as int)));
            }
            i = if j < n {
                j + 1
            } else {
                j
            };
        } else if ('0' <= c && c <= '9') || c == '-' {
            let j = find_non_digit(&cs, i + 1);
            proof {
                lemma_scan(cs@, i + 1, |c: char| !is_digit(c));
            }
            match parse_i32(&cs, i, j) {
                None => {
                    return Err(ParseError::InvalidNumber);
                },
                Some(value) => {
                    if stack.len() == 0 {
                        return Err(ParseError::AtomOutsideList);
                    }
                    let item = Sexpr::Atom(A::Number(value));
            let ghost iv = item@;
            let ghost before2 = stack@;
            assert(stack@.last() == stack@[stack@.len() - 1]);
            push_top_exec(&mut stack, item);
            proof {
                lemma_push_top_holds(before2, stack@, sv, iv);
            }
                    proof {
                        sv = push_top(sv, num(value));
                    }
                    i = j;
                },
            }
        } else if is_whitespace(c) {
            i = i + 1;
        } else {
            let j = find_space(&cs, i + 1);
            proof {
                lemma_scan(cs@, i + 1, |c: char| c == ' ');
            }
            let text = string_of(&cs, i, j);
            if stack.len() == 0 {
                return Err(ParseError::AtomOutsideList);
            }
            let item = Sexpr::Atom(A::Symbol(text));
            let ghost iv = item@;
            let ghost before2 = stack@;
            assert(stack@.last() == stack@[stack@.len() - 1]);
            push_top_exec(&mut stack, item);
            proof {
                lemma_push_top_holds(before2, stack@, sv, iv);
            }
            proof {
                sv = push_top(sv, sym(cs@.subrange(i as int, j as int)));
            }
            i = if j < n {
                j + 1
            } else {
                j
            };
        }
    }
    let empty: Vec<Sexpr> = Vec::new();
    proof {
        lemma_list_view(empty);
        assert(views(empty@) =~= Seq::<SpecSexpr>::empty());
    }
    Ok(Sexpr::List(empty))
}

/// Reads an s-expression from `s`, which must hold one.
pub fn parse(s: String) -> (r: Sexpr)
    requires
        spec_read(s@) is Ok,
    ensures
        spec_read(s@) == Ok::<SpecSexpr, ParseError>(r@),
{
    match try_parse(s.as_str()) {
        Ok(e) => e,
        Err(_) => {
            proof {
                assert(false);
            }
            Sexpr::List(Vec::new())
        },
    }
}

} // verus!
