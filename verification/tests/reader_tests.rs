use tappio::reader::{parse, try_parse, ParseError};
use tappio::sexpr::{Sexpr, A};

fn read(s: &str) -> String {
    try_parse(s).unwrap().to_string()
}

#[test]
fn reads_lists_of_atoms() {
    assert_eq!(read("(a 1 \"x y\" (b -2) c )"), "(a 1 \"x y\" (b -2) c)");
    assert_eq!(read("  (\n(1)\t(\"\")\r\n)"), "((1) (\"\"))");
}

#[test]
fn reads_what_the_number_holds() {
    let e = try_parse("(-2147483648 2147483647 007)").unwrap();
    match e.get(0) {
        Sexpr::Atom(A::Number(n)) => assert_eq!(*n, i32::MIN),
        _ => panic!("not a number"),
    }
    assert_eq!(e.to_string(), "(-2147483648 2147483647 7)");
}

#[test]
fn a_number_ends_at_the_first_non_digit() {
    assert_eq!(read("(12ab cd 3)"), "(12 ab cd 3)");
}

#[test]
fn a_symbol_runs_to_the_next_space() {
    // The closing parenthesis belongs to the symbol, so the list stays open.
    assert_eq!(read("(a b)"), "()");
    assert_eq!(read("(a\nb c 1)"), "(a\nb c 1)");
}

#[test]
fn reading_stops_at_the_end_of_the_first_list() {
    assert_eq!(read("(1) (2)"), "(1)");
}

#[test]
fn text_without_a_closed_list_reads_as_the_empty_list() {
    assert_eq!(read(""), "()");
    assert_eq!(read("   "), "()");
    assert_eq!(read("(\"abc"), "()");
    assert_eq!(read("((1)"), "()");
}

#[test]
fn errors_say_why() {
    assert_eq!(try_parse(")").unwrap_err(), ParseError::UnmatchedParenthesis);
    assert_eq!(try_parse("a").unwrap_err(), ParseError::AtomOutsideList);
    assert_eq!(try_parse("5").unwrap_err(), ParseError::AtomOutsideList);
    assert_eq!(try_parse("\"s\"").unwrap_err(), ParseError::AtomOutsideList);
    assert_eq!(try_parse("(-)").unwrap_err(), ParseError::InvalidNumber);
    assert_eq!(try_parse("(2147483648)").unwrap_err(), ParseError::InvalidNumber);
    assert_eq!(try_parse("(-abc)").unwrap_err(), ParseError::InvalidNumber);
    assert_eq!(try_parse("-").unwrap_err(), ParseError::InvalidNumber);
}

#[test]
fn parse_reads_a_document() {
    let e = parse("(identity \"Tappio\")".to_string());
    assert_eq!(e.to_string(), "(identity \"Tappio\")");
}

#[test]
fn what_is_written_reads_back() {
    let doc = "(identity \"Tappio\" version \"versio 0.22\" finances (fiscal-year \"LPK 1970\" (date 1970 1 1) (date 1970 12 31) (account-map (account -1 \"Vastaavaa\" ((account 100 \"Rahat\" ())))) ((event 0 (date 1970 1 1) \"Tilikauden avaus\" ((100 (money 2000)))) (event 1 (date 1970 2 1) \"a / b\" ((1130 (money -5)) (100 (money 5)))))))";
    let e = try_parse(doc).unwrap();
    assert_eq!(e.to_string(), doc);
    assert_eq!(try_parse(&e.to_string()).unwrap().to_string(), doc);
}

#[test]
fn reading_ignores_what_follows_the_first_list() {
    let doc = "(account 1 \"A\" ((account 2 \"B\" ())))";
    for rest in ["", "\n", " junk)", "(2)", ")))", "\"unclosed"] {
        assert_eq!(try_parse(&format!("{}{}", doc, rest)).unwrap().to_string(), doc);
    }
}
