use tappio::sexpr::{Sexpr, A};

fn sym(s: &str) -> Sexpr {
    Sexpr::Atom(A::Symbol(s.to_string()))
}

fn num(n: i32) -> Sexpr {
    Sexpr::Atom(A::Number(n))
}

fn text(s: &str) -> Sexpr {
    Sexpr::Atom(A::String(s.to_string()))
}

#[test]
fn atoms_are_written_as_display_writes_them() {
    assert_eq!(A::String("a b".to_string()).to_string(), "\"a b\"");
    assert_eq!(A::Number(-42).to_string(), "-42");
    assert_eq!(A::Number(0).to_string(), "0");
    assert_eq!(A::Number(i32::MIN).to_string(), "-2147483648");
    assert_eq!(A::Number(i32::MAX).to_string(), "2147483647");
    assert_eq!(A::Symbol("money".to_string()).to_string(), "money");
}

#[test]
fn lists_are_written_with_single_spaces() {
    let e = Sexpr::List(vec![sym("a"), num(1), Sexpr::List(vec![]), Sexpr::List(vec![text("x"), num(-2)])]);
    assert_eq!(e.to_string(), "(a 1 () (\"x\" -2))");
    assert_eq!(Sexpr::List(vec![]).to_string(), "()");
}

#[test]
fn push_appends_an_item() {
    let mut e = Sexpr::List(vec![num(1)]);
    e.push(num(2));
    assert_eq!(e.to_string(), "(1 2)");
    assert_eq!(e.get(1).to_string(), "2");
}

#[test]
fn append_appends_the_items_of_a_list() {
    let mut e = Sexpr::List(vec![sym("account-map")]);
    e.append(Sexpr::List(vec![num(1), num(2)]));
    assert_eq!(e.to_string(), "(account-map 1 2)");
    e.append(Sexpr::List(vec![]));
    assert_eq!(e.to_string(), "(account-map 1 2)");
}

#[test]
fn push_last_appends_to_the_last_item() {
    let mut e = Sexpr::List(vec![num(1), Sexpr::List(vec![num(2)])]);
    e.push_last(num(3));
    assert_eq!(e.to_string(), "(1 (2 3))");
}

#[test]
fn set_last_replaces_the_last_item() {
    let mut e = Sexpr::List(vec![num(1), num(2)]);
    e.set_last(num(9));
    assert_eq!(e.to_string(), "(1 9)");
    let mut empty = Sexpr::List(vec![]);
    empty.set_last(num(9));
    assert_eq!(empty.to_string(), "(9)");
}

#[test]
fn get_and_get_mut_read_an_item() {
    let mut e = Sexpr::List(vec![num(1), sym("b")]);
    assert_eq!(e.get(0).to_string(), "1");
    assert_eq!(e.get_mut(1).to_string(), "b");
    assert_eq!(e.to_string(), "(1 b)");
}

fn six(inner: Sexpr) -> Sexpr {
    Sexpr::List(vec![num(0), num(1), num(2), num(3), num(4), inner])
}

#[test]
fn mutate_5_5_replaces_the_nested_item() {
    let mut e = six(six(num(5)));
    e.mutate_5_5(sym("new"));
    assert_eq!(e.to_string(), "(0 1 2 3 4 (0 1 2 3 4 new))");
}

#[test]
fn mutate_5_5_leaves_short_lists_alone() {
    let mut short = Sexpr::List(vec![num(0)]);
    short.mutate_5_5(sym("new"));
    assert_eq!(short.to_string(), "(0)");
    let mut inner_atom = six(num(5));
    inner_atom.mutate_5_5(sym("new"));
    assert_eq!(inner_atom.to_string(), "(0 1 2 3 4 5)");
    let mut inner_short = six(Sexpr::List(vec![num(7)]));
    inner_short.mutate_5_5(sym("new"));
    assert_eq!(inner_short.to_string(), "(0 1 2 3 4 (7))");
    let mut atom = num(3);
    atom.mutate_5_5(sym("new"));
    assert_eq!(atom.to_string(), "3");
}
