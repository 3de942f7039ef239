//! S-expressions as Tappio files hold them, their mathematical model and
//! their text form.
use vstd::prelude::*;

use crate::text::{int_text, push_char, push_i32};

verus! {

/// An atom of an s-expression.
#[derive(Clone, Debug, PartialEq, Eq)]
pub enum A {
    String(String),
    Number(i32),
    Symbol(String),
}

/// An s-expression: an atom, or a list of s-expressions.
#[derive(Debug)]
pub enum Sexpr {
    Atom(A),
    List(Vec<Sexpr>),
}

/// The model of an atom.
pub enum SpecAtom {
    Str(Seq<char>),
    Num(i32),
    Sym(Seq<char>),
}

/// The model of an s-expression.
pub enum SpecSexpr {
    Atom(SpecAtom),
    List(Seq<SpecSexpr>),
}

pub open spec fn atom_view(a: A) -> SpecAtom {
    match a {
        A::String(s) => SpecAtom::Str(s@),
        A::Number(n) => SpecAtom::Num(n),
        A::Symbol(s) => SpecAtom::Sym(s@),
    }
}

pub open spec fn sexpr_view(e: Sexpr) -> SpecSexpr
    decreases e,
{
    match e {
        Sexpr::Atom(a) => SpecSexpr::Atom(atom_view(a)),
        Sexpr::List(v) => SpecSexpr::List(
            Seq::new(
                v@.len(),
                |i: int|
                    if 0 <= i < v@.len() {
                        sexpr_view(v@[i])
                    } else {
                        SpecSexpr::List(Seq::empty())
                    },
            ),
        ),
    }
}

impl View for A {
    type V = SpecAtom;

    open spec fn view(&self) -> SpecAtom {
        atom_view(*self)
    }
}

impl View for Sexpr {
    type V = SpecSexpr;

    open spec fn view(&self) -> SpecSexpr {
        sexpr_view(*self)
    }
}

/// The models of a sequence of s-expressions.
pub open spec fn views(v: Seq<Sexpr>) -> Seq<SpecSexpr> {
    Seq::new(v.len(), |i: int| v[i]@)
}

/// The model of a list is the sequence of its items' models.
pub proof fn lemma_list_view(v: Vec<Sexpr>)
    ensures
        Sexpr::List(v)@ == SpecSexpr::List(views(v@)),
{
    assert(Sexpr::List(v)@->List_0 =~= views(v@));
}

/// The items of a list; nothing for an atom.
pub open spec fn items(e: SpecSexpr) -> Seq<SpecSexpr> {
    match e {
        SpecSexpr::List(s) => s,
        SpecSexpr::Atom(_) => Seq::empty(),
    }
}

/// A list of the given items.
pub open spec fn list(s: Seq<SpecSexpr>) -> SpecSexpr {
    SpecSexpr::List(s)
}

/// The atom `sym`.
pub open spec fn sym(s: Seq<char>) -> SpecSexpr {
    SpecSexpr::Atom(SpecAtom::Sym(s))
}

/// The atom `n`.
pub open spec fn num(n: i32) -> SpecSexpr {
    SpecSexpr::Atom(SpecAtom::Num(n))
}

/// The atom `"s"`.
pub open spec fn quoted(s: Seq<char>) -> SpecSexpr {
    SpecSexpr::Atom(SpecAtom::Str(s))
}

/// How an atom is written: a string in double quotes, a number in decimal,
/// a symbol as it is.
pub open spec fn atom_text(a: SpecAtom) -> Seq<char> {
    match a {
        SpecAtom::Str(s) => seq!['"'] + s + seq!['"'],
        SpecAtom::Num(n) => int_text(n as int),
        SpecAtom::Sym(s) => s,
    }
}

/// How an s-expression is written: a list as its items separated by single
/// spaces, in parentheses.
pub open spec fn sexpr_text(e: SpecSexpr) -> Seq<char>
    decreases e, 1nat,
{
    match e {
        SpecSexpr::Atom(a) => atom_text(a),
        SpecSexpr::List(s) => seq!['('] + items_text(s) + seq![')'],
    }
}

/// The texts of `s`, separated by single spaces.
pub open spec fn items_text(s: Seq<SpecSexpr>) -> Seq<char>
    decreases s, 0nat,
{
    if s.len() == 0 {
        Seq::empty()
    } else if s.len() == 1 {
        sexpr_text(s[0])
    } else {
        items_text(s.drop_last()) + seq![' '] + sexpr_text(s.last())
    }
}

impl A {
    /// The text of this atom, as `Display` writes it.
    pub fn to_string(&self) -> (r: String)
        ensures
            r@ == atom_text(self@),
    {
        let mut out = String::new();
        self.write_to(&mut out);
        assert(out@ =~= atom_text(self@));
        out
    }

    /// Appends the text of this atom to `out`.
    pub fn write_to(&self, out: &mut String)
        ensures
            final(out)@ == old(out)@ + atom_text(self@),
    {
        match self {
            A::String(s) => {
                push_char(out, '"');
                out.append(s.as_str());
                push_char(out, '"');
                assert(final(out)@ =~= old(out)@ + atom_text(self@));
            },
            A::Number(n) => {
                push_i32(out, *n);
            },
            A::Symbol(s) => {
                out.append(s.as_str());
            },
        }
    }
}

impl Sexpr {
    /// The text of this s-expression, as `Display` writes it.
    pub fn to_string(&self) -> (r: String)
        ensures
            r@ == sexpr_text(self@),
    {
        let mut out = String::new();
        self.write_to(&mut out);
        assert(out@ =~= sexpr_text(self@));
        out
    }

    /// Appends the text of this s-expression to `out`.
    pub fn write_to(&self, out: &mut String)
        ensures
            final(out)@ == old(out)@ + sexpr_text(self@),
        decreases self,
    {
        match self {
            Sexpr::Atom(a) => {
                a.write_to(out);
            },
            Sexpr::List(l) => {
                proof {
                    lemma_list_view(*l);
                }
                let ghost start = out@;
                push_char(out, '(');
                let mut i: usize = 0;
                while i < l.len()
                    invariant
                        i <= l@.len(),
                        self@ == SpecSexpr::List(views(l@)),
                        *self == Sexpr::List(*l),
                        out@ == start + seq!['('] + items_text(views(l@).take(i as int)),
                    decreases l@.len() - i,
                {
                    let ghost before = out@;
                    if i > 0 {
                        push_char(out, ' ');
                    }
                    l[i].write_to(out);
                    let ghost s = views(l@).take(i + 1);
                    assert(s.drop_last() =~= views(l@).take(i as int));
                    assert(s.last() == l@[i as int]@);
                    if i == 0 {
                        assert(items_text(views(l@).take(0)) =~= Seq::<char>::empty());
                    }
                    i = i + 1;
                    assert(out@ =~= start + seq!['('] + items_text(views(l@).take(i as int)));
                }
                push_char(out, ')');
                assert(views(l@).take(l@.len() as int) =~= views(l@));
                assert(final(out)@ =~= old(out)@ + sexpr_text(self@));
            },
        }
    }

    /// Appends `v` to this list.
    pub fn push(&mut self, v: Sexpr)
        requires
            old(self)@ is List,
        ensures
            final(self)@ == list(items(old(self)@).push(v@)),
    {
        match self {
            Sexpr::List(l) => {
                proof {
                    lemma_list_view(*l);
                }
                l.push(v);
                proof {
                    lemma_list_view(*l);
                }
                assert(views(l@) =~= items(old(self)@).push(v@));
            },
            Sexpr::Atom(_) => {},
        }
    }

    /// Appends the items of the list `v` to this list.
    pub fn append(&mut self, v: Sexpr)
        requires
            old(self)@ is List,
            v@ is List,
        ensures
            final(self)@ == list(items(old(self)@) + items(v@)),
    {
        match self {
            Sexpr::List(l) => {
                match v {
                    Sexpr::List(mut m) => {
                        proof {
                            lemma_list_view(*l);
                            lemma_list_view(m);
                        }
                        let ghost old_m = m@;
                        l.append(&mut m);
                        proof {
                            lemma_list_view(*l);
                        }
                        assert(views(l@) =~= items(old(self)@) + views(old_m));
                    },
                    Sexpr::Atom(_) => {},
                }
            },
            Sexpr::Atom(_) => {},
        }
    }

    /// Appends `v` to the list that is the last item of this list.
    pub fn push_last(&mut self, v: Sexpr)
        requires
            old(self)@ is List,
            items(old(self)@).len() > 0,
            items(old(self)@).last() is List,
        ensures
            final(self)@ == list(
                items(old(self)@).update(
                    items(old(self)@).len() - 1,
                    list(items(items(old(self)@).last()).push(v@)),
                ),
            ),
    {
        match self {
            Sexpr::List(l) => {
                proof {
                    lemma_list_view(*l);
                }
                let ghost old_l = l@;
                let n = l.len();
                let mut last = l.pop().unwrap();
                assert(last@ == views(old_l)[n - 1]);
                last.push(v);
                l.push(last);
                proof {
                    lemma_list_view(*l);
                }
                assert(views(l@) =~= views(old_l).update(
                    n - 1,
                    list(items(views(old_l).last()).push(v@)),
                ));
            },
            Sexpr::Atom(_) => {},
        }
    }

    /// Replaces the last item of this list by `v`; appends `v` to an empty list.
    pub fn set_last(&mut self, v: Sexpr)
        requires
            old(self)@ is List,
        ensures
            final(self)@ == list(
                if items(old(self)@).len() == 0 {
                    seq![v@]
                } else {
                    items(old(self)@).drop_last().push(v@)
                },
            ),
    {
        match self {
            Sexpr::List(l) => {
                proof {
                    lemma_list_view(*l);
                }
                let ghost old_l = l@;
                l.pop();
                l.push(v);
                proof {
                    lemma_list_view(*l);
                }
                proof {
                    if old_l.len() == 0 {
                        assert(views(l@) =~= seq![v@]);
                    } else {
                        assert(views(l@) =~= views(old_l).drop_last().push(v@));
                    }
                }
            },
            Sexpr::Atom(_) => {},
        }
    }

    /// The item at index `i` of this list.
    pub fn get(&self, i: usize) -> (r: &Sexpr)
        requires
            self@ is List,
            i < items(self@).len(),
        ensures
            r@ == items(self@)[i as int],
    {
        match self {
            Sexpr::List(l) => {
                proof {
                    lemma_list_view(*l);
                }
                &l[i]
            },
            Sexpr::Atom(_) => {
                proof {
                    assert(false);
                }
                self
            },
        }
    }

    /// The item at index `i` of this list, reached through a unique borrow.
    pub fn get_mut(&mut self, i: usize) -> (r: &Sexpr)
        requires
            old(self)@ is List,
            i < items(old(self)@).len(),
        ensures
            r@ == items(old(self)@)[i as int],
            *final(self) == *old(self),
    {
        self.get(i)
    }

    /// Replaces the item at index 5 of the list at index 5 of this list by `v`,
    /// where both exist; leaves anything else as it is.
    pub fn mutate_5_5(&mut self, v: Sexpr)
        ensures
            final(self)@ == mutated_5_5(old(self)@, v@),
    {
        match self {
            Sexpr::List(l1) => {
                proof {
                    lemma_list_view(*l1);
                }
                if l1.len() > 5 {
                    let ghost old_l1 = l1@;
                    let inner = l1.remove(5);
                    assert(inner@ == views(old_l1)[5]);
                    let changed = match inner {
                        Sexpr::List(mut l2) => {
                            proof {
                                lemma_list_view(l2);
                            }
                            if l2.len() > 5 {
                                let ghost old_l2 = l2@;
                                l2.set(5, v);
                                proof {
                                    lemma_list_view(l2);
                                }
                                assert(views(l2@) =~= views(old_l2).update(5, v@));
                            }
                            Sexpr::List(l2)
                        },
                        Sexpr::Atom(a) => Sexpr::Atom(a),
                    };
                    l1.insert(5, changed);
                    proof {
                        lemma_list_view(*l1);
                    }
                    assert(views(l1@) =~= views(old_l1).update(5, changed@));
                    proof {
                        if !(views(old_l1)[5] is List && items(views(old_l1)[5]).len() > 5) {
                            assert(changed@ == views(old_l1)[5]);
                            assert(views(old_l1).update(5, changed@) =~= views(old_l1));
                        }
                    }
                }
            },
            Sexpr::Atom(_) => {},
        }
    }
}

/// What `mutate_5_5` makes of `e`.
pub open spec fn mutated_5_5(e: SpecSexpr, v: SpecSexpr) -> SpecSexpr {
    let outer = items(e);
    if e is List && outer.len() > 5 && outer[5] is List && items(outer[5]).len() > 5 {
        list(outer.update(5, list(items(outer[5]).update(5, v))))
    } else {
        e
    }
}

} // verus!
