//! Writing an s-expression and reading the text back.
//!
//! The reader gives back what the writer wrote for every list whose atoms the
//! text form can carry: strings without double quotes, symbols that start
//! like a symbol and hold no space, and no symbol as the last item of a list
//! (the reader would take the closing parenthesis into the symbol).
use vstd::prelude::*;

use crate::reader::{
    after, digits_end, push_top, quote_end, read_from, scan, space_end, spec_read, ParseError,
};
use crate::sexpr::{items_text, list, sexpr_text, SpecAtom, SpecSexpr};
use crate::text::{is_digit, lemma_int_text_parses, int_text, spec_is_whitespace, spec_parse_i32};

verus! {

/// A character that the reader takes as the start of a symbol.
pub open spec fn symbol_start(c: char) -> bool {
    c != '(' && c != ')' && c != '"' && c != '-' && !is_digit(c) && !spec_is_whitespace(c)
}

/// An atom whose text reads back as itself.
pub open spec fn writable_atom(a: SpecAtom) -> bool {
    match a {
        SpecAtom::Str(s) => !s.contains('"'),
        SpecAtom::Num(_) => true,
        SpecAtom::Sym(s) => s.len() > 0 && symbol_start(s[0]) && !s.contains(' '),
    }
}

/// `e` is a symbol.
pub open spec fn is_symbol(e: SpecSexpr) -> bool {
    e matches SpecSexpr::Atom(SpecAtom::Sym(_))
}

/// An s-expression whose text reads back as itself (inside a list).
pub open spec fn writable(e: SpecSexpr) -> bool
    decreases e, 1nat,
{
    match e {
        SpecSexpr::Atom(a) => writable_atom(a),
        SpecSexpr::List(s) => {
            &&& all_writable(s)
            &&& s.len() > 0 ==> !is_symbol(s.last())
        },
    }
}

/// Each of `s` is writable.
pub open spec fn all_writable(s: Seq<SpecSexpr>) -> bool
    decreases s, 0nat,
{
    if s.len() == 0 {
        true
    } else {
        all_writable(s.drop_last()) && writable(s.last())
    }
}

/// `stack` with `s` added to its innermost list.
pub open spec fn push_all(stack: Seq<Seq<SpecSexpr>>, s: Seq<SpecSexpr>) -> Seq<Seq<SpecSexpr>> {
    stack.update(stack.len() - 1, stack.last() + s)
}

proof fn lemma_scan_exact(t: Seq<char>, a: int, b: int, stop: spec_fn(char) -> bool)
    requires
        0 <= a <= b < t.len(),
        forall|k: int| a <= k < b ==> !stop(#[trigger] t[k]),
        stop(t[b]),
    ensures
        scan(t, a, stop) == b,
    decreases b - a,
{
    if a < b {
        lemma_scan_exact(t, a + 1, b, stop);
    }
}

/// `u` stands in `t` at `i`, followed by a space or a closing parenthesis.
pub open spec fn stands_at(t: Seq<char>, i: int, u: Seq<char>) -> bool {
    &&& 0 <= i
    &&& i + u.len() < t.len()
    &&& t.subrange(i, i + u.len()) == u
    &&& (t[i + u.len()] == ' ' || t[i + u.len()] == ')')
}

proof fn lemma_stands_at_index(t: Seq<char>, i: int, u: Seq<char>, k: int)
    requires
        stands_at(t, i, u),
        0 <= k < u.len(),
    ensures
        t[i + k] == u[k],
{
    assert(t.subrange(i, i + u.len())[k] == t[i + k]);
}

/// Reading the text of one item of a list goes on after it with the item
/// added to the innermost open list.
proof fn lemma_read_item(t: Seq<char>, i: int, e: SpecSexpr, st: Seq<Seq<SpecSexpr>>)
    requires
        writable(e),
        st.len() > 0,
        stands_at(t, i, sexpr_text(e)),
        is_symbol(e) ==> t[i + sexpr_text(e).len()] == ' ',
    ensures
        read_from(t, i, st) == read_from(t, i + sexpr_text(e).len(), push_top(st, e)),
    decreases e, 1nat,
{
    let u = sexpr_text(e);
    let end = i + u.len();
    match e {
        SpecSexpr::Atom(SpecAtom::Str(x)) => {
            assert(u =~= seq!['"'] + x + seq!['"']);
            lemma_stands_at_index(t, i, u, 0);
            lemma_stands_at_index(t, i, u, u.len() - 1);
            assert forall|k: int| i + 1 <= k < end - 1 implies !((|c: char| c == '"')(
                #[trigger] t[k],
            )) by {
                lemma_stands_at_index(t, i, u, k - i);
                assert(u[k - i] == x[k - i - 1]);
                if t[k] == '"' {
                    assert(x[k - i - 1] == '"');
                    assert(x.contains('"'));
                }
            }
            lemma_scan_exact(t, i + 1, end - 1, |c: char| c == '"');
            assert(quote_end(t, i + 1) == end - 1);
            assert(t.subrange(i + 1, end - 1) =~= x) by {
                assert forall|k: int| 0 <= k < x.len() implies #[trigger] t.subrange(
                    i + 1,
                    end - 1,
                )[k] == x[k] by {
                    lemma_stands_at_index(t, i, u, k + 1);
                }
            }
            assert(after(t, end - 1) == end);
        },
        SpecSexpr::Atom(SpecAtom::Num(n)) => {
            assert(u == int_text(n as int));
            lemma_int_text_parses(n);
            lemma_stands_at_index(t, i, u, 0);
            assert forall|k: int| i + 1 <= k < end implies !((|c: char| !is_digit(c))(
                #[trigger] t[k],
            )) by {
                lemma_stands_at_index(t, i, u, k - i);
            }
            lemma_scan_exact(t, i + 1, end, |c: char| !is_digit(c));
            assert(digits_end(t, i + 1) == end);
            assert(t.subrange(i, end) == u);
            assert(spec_parse_i32(t.subrange(i, end)) == Some(n));
        },
        SpecSexpr::Atom(SpecAtom::Sym(x)) => {
            assert(u == x);
            lemma_stands_at_index(t, i, u, 0);
            assert forall|k: int| i + 1 <= k < end implies !((|c: char| c == ' ')(
                #[trigger] t[k],
            )) by {
                lemma_stands_at_index(t, i, u, k - i);
                if t[k] == ' ' {
                    assert(x[k - i] == ' ');
                    assert(x.contains(' '));
                }
            }
            lemma_scan_exact(t, i + 1, end, |c: char| c == ' ');
            assert(space_end(t, i + 1) == end);
            assert(after(t, end) == end + 1);
            // The space after the symbol reads as white space.
            assert(spec_is_whitespace(t[end]));
            assert(read_from(t, end, push_top(st, e)) == read_from(t, end + 1, push_top(st, e)));
        },
        SpecSexpr::List(s) => {
            let inner = items_text(s);
            assert(u =~= seq!['('] + inner + seq![')']);
            lemma_stands_at_index(t, i, u, 0);
            lemma_stands_at_index(t, i, u, u.len() - 1);
            assert(t.subrange(i + 1, i + 1 + inner.len()) =~= inner) by {
                assert forall|k: int| 0 <= k < inner.len() implies #[trigger] t.subrange(
                    i + 1,
                    i + 1 + inner.len(),
                )[k] == inner[k] by {
                    lemma_stands_at_index(t, i, u, k + 1);
                }
            }
            assert(stands_at(t, i + 1, inner));
            let st1 = st.push(Seq::<SpecSexpr>::empty());
            lemma_read_items(t, i + 1, s, st1);
            assert(Seq::<SpecSexpr>::empty() + s =~= s);
            assert(push_all(st1, s) =~= st.push(s));
            assert(st.push(s).drop_last() =~= st);
            assert(read_from(t, i + 1 + inner.len(), st.push(s)) == read_from(
                t,
                end,
                push_top(st, list(s)),
            ));
        },
    }
}

/// Reading the texts of the items `s`, separated by spaces, goes on after
/// them with the items added to the innermost open list.
proof fn lemma_read_items(t: Seq<char>, j: int, s: Seq<SpecSexpr>, st: Seq<Seq<SpecSexpr>>)
    requires
        all_writable(s),
        st.len() > 0,
        stands_at(t, j, items_text(s)),
        s.len() > 0 && is_symbol(s.last()) ==> t[j + items_text(s).len()] == ' ',
    ensures
        read_from(t, j, st) == read_from(t, j + items_text(s).len(), push_all(st, s)),
    decreases s, 0nat,
{
    if s.len() == 0 {
        assert(push_all(st, s) =~= st);
    } else if s.len() == 1 {
        assert(s.last() == s[0]);
        assert(writable(s.last()));
        lemma_read_item(t, j, s[0], st);
        assert(st.last() + s =~= st.last().push(s[0]));
        assert(push_all(st, s) =~= push_top(st, s[0]));
    } else {
        let init = s.drop_last();
        let first = items_text(init);
        let last_text = sexpr_text(s.last());
        let whole = items_text(s);
        assert(whole == first + seq![' '] + last_text);
        assert(t.subrange(j, j + first.len()) =~= first) by {
            assert forall|k: int| 0 <= k < first.len() implies #[trigger] t.subrange(
                j,
                j + first.len(),
            )[k] == first[k] by {
                lemma_stands_at_index(t, j, whole, k);
            }
        }
        lemma_stands_at_index(t, j, whole, first.len() as int);
        lemma_read_items(t, j, init, st);
        let st1 = push_all(st, init);
        let p = j + first.len();
        // The separating space reads as white space.
        assert(spec_is_whitespace(t[p]));
        assert(read_from(t, p, st1) == read_from(t, p + 1, st1));
        assert(t.subrange(p + 1, p + 1 + last_text.len()) =~= last_text) by {
            assert forall|k: int| 0 <= k < last_text.len() implies #[trigger] t.subrange(
                p + 1,
                p + 1 + last_text.len(),
            )[k] == last_text[k] by {
                lemma_stands_at_index(t, j, whole, first.len() + 1 + k);
            }
        }
        assert(writable(s.last()));
        lemma_read_item(t, p + 1, s.last(), st1);
        assert(st1.last() == st.last() + init);
        assert((st.last() + init).push(s.last()) =~= st.last() + s);
        assert(push_top(st1, s.last()) =~= push_all(st, s));
    }
}

/// Reading stops at the end of the first list: what is written of a list
/// reads back as that list, wherever its atoms can be written, whatever text
/// follows it.
pub proof fn law_reading_stops_after_first_list(e: SpecSexpr, rest: Seq<char>)
    requires
        e is List,
        writable(e),
    ensures
        spec_read(sexpr_text(e) + rest) == Ok::<SpecSexpr, ParseError>(e),
{
    let s = e->List_0;
    let u = sexpr_text(e);
    let t = u + rest;
    let inner = items_text(s);
    assert(u =~= seq!['('] + inner + seq![')']);
    assert(t[0] == '(');
    assert(t[1 + inner.len() as int] == ')');
    assert(t.subrange(1, 1 + inner.len() as int) =~= inner);
    assert(stands_at(t, 1, inner));
    let st1 = seq![Seq::<SpecSexpr>::empty()];
    assert(Seq::<Seq<SpecSexpr>>::empty().push(Seq::<SpecSexpr>::empty()) =~= st1);
    lemma_read_items(t, 1, s, st1);
    assert(Seq::<SpecSexpr>::empty() + s =~= s);
    assert(push_all(st1, s) =~= seq![s]);
}

/// What is written of a list reads back as that list, wherever its atoms
/// can be written: `try_parse` of the text of `to_string` gives back the same
/// s-expression.
pub proof fn law_read_what_is_written(e: SpecSexpr)
    requires
        e is List,
        writable(e),
    ensures
        spec_read(sexpr_text(e)) == Ok::<SpecSexpr, ParseError>(e),
{
    law_reading_stops_after_first_list(e, Seq::empty());
    assert(sexpr_text(e) + Seq::<char>::empty() =~= sexpr_text(e));
}

/// How s-expressions are written: a string in double quotes, a number as the
/// text that reads back as it, a symbol as it is, the empty list as `()`,
/// and a list with one more item as the list before it, with that item's
/// text added before the closing parenthesis, after a single space where
/// the list was not empty.
pub proof fn law_text_form(s: Seq<SpecSexpr>, x: SpecSexpr, t: Seq<char>, n: i32)
    ensures
        sexpr_text(SpecSexpr::Atom(SpecAtom::Str(t))) == seq!['"'] + t + seq!['"'],
        sexpr_text(SpecSexpr::Atom(SpecAtom::Sym(t))) == t,
        spec_parse_i32(sexpr_text(SpecSexpr::Atom(SpecAtom::Num(n)))) == Some(n),
        sexpr_text(list(Seq::empty())) == seq!['(', ')'],
        sexpr_text(list(s.push(x))) == sexpr_text(list(s)).drop_last() + (if s.len() == 0 {
            Seq::<char>::empty()
        } else {
            seq![' ']
        }) + sexpr_text(x) + seq![')'],
{
    lemma_int_text_parses(n);
    let p = s.push(x);
    assert(p.drop_last() =~= s);
    assert(p.last() == x);
    assert(items_text(Seq::<SpecSexpr>::empty()) =~= Seq::<char>::empty());
    assert((seq!['('] + items_text(s) + seq![')']).drop_last() =~= seq!['('] + items_text(s));
    if s.len() == 0 {
        assert(p[0] == x);
        assert(seq!['('] + items_text(s) + Seq::<char>::empty() + sexpr_text(x) + seq![')']
            =~= seq!['('] + sexpr_text(x) + seq![')']);
    } else {
        assert(seq!['('] + items_text(s) + seq![' '] + sexpr_text(x) + seq![')'] =~= seq!['(']
            + (items_text(s) + seq![' '] + sexpr_text(x)) + seq![')']);
    }
}

proof fn lemma_read_white(w: Seq<char>, i: int, stack: Seq<Seq<SpecSexpr>>)
    requires
        0 <= i,
        forall|k: int| 0 <= k < w.len() ==> spec_is_whitespace(#[trigger] w[k]),
    ensures
        read_from(w, i, stack) == Ok::<SpecSexpr, ParseError>(list(Seq::empty())),
    decreases w.len() - i,
{
    if i < w.len() {
        assert(spec_is_whitespace(w[i]));
        lemma_read_white(w, i + 1, stack);
    }
}

/// What the reader refuses and what it reads as nothing: a closing
/// parenthesis with no list open is refused, and so is an atom (a string or
/// a symbol) with no list open to hold it; a text of white space alone, or
/// one that opens a list and never closes it, reads as the empty list.
pub proof fn law_reader_edges(rest: Seq<char>, w: Seq<char>, c: char)
    requires
        forall|k: int| 0 <= k < w.len() ==> spec_is_whitespace(#[trigger] w[k]),
    ensures
        spec_read(seq![')'] + rest) == Err::<SpecSexpr, ParseError>(
            ParseError::UnmatchedParenthesis,
        ),
        spec_read(seq!['"'] + rest) == Err::<SpecSexpr, ParseError>(ParseError::AtomOutsideList),
        symbol_start(c) ==> spec_read(seq![c] + rest) == Err::<SpecSexpr, ParseError>(
            ParseError::AtomOutsideList,
        ),
        spec_read(w) == Ok::<SpecSexpr, ParseError>(list(Seq::empty())),
        spec_read(seq!['('] + w) == Ok::<SpecSexpr, ParseError>(list(Seq::empty())),
{
    assert((seq![')'] + rest)[0] == ')');
    assert((seq!['"'] + rest)[0] == '"');
    assert((seq![c] + rest)[0] == c);
    lemma_read_white(w, 0, Seq::empty());
    let o = seq!['('] + w;
    assert forall|k: int| 0 <= k < o.len() - 1 implies spec_is_whitespace(#[trigger] o[k + 1]) by {
        assert(o[k + 1] == w[k]);
    }
    lemma_read_open_white(o, 1, seq![Seq::<SpecSexpr>::empty()]);
    assert(Seq::<Seq<SpecSexpr>>::empty().push(Seq::<SpecSexpr>::empty()) =~= seq![
        Seq::<SpecSexpr>::empty(),
    ]);
}

proof fn lemma_read_open_white(o: Seq<char>, i: int, stack: Seq<Seq<SpecSexpr>>)
    requires
        1 <= i,
        forall|k: int| 0 <= k < o.len() - 1 ==> spec_is_whitespace(#[trigger] o[k + 1]),
    ensures
        read_from(o, i, stack) == Ok::<SpecSexpr, ParseError>(list(Seq::empty())),
    decreases o.len() - i,
{
    if i < o.len() {
        let k = i - 1;
        assert(spec_is_whitespace(o[k + 1]));
        lemma_read_open_white(o, i + 1, stack);
    }
}

} // verus!
