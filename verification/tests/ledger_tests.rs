use tappio::ledger::{
    date_str_to_sexpr, describe_row, header_fields, ledger_document, make_opening_event,
    row_to_sexpr, rows_to_events, split_chart_file, try_date_str_to_sexpr, try_row_to_sexpr,
    RowError,
};
use tappio::reader::try_parse;
use tappio::sexpr::{Sexpr, A};

fn cells(texts: &[&str]) -> Vec<String> {
    texts.iter().map(|t| t.to_string()).collect()
}

#[test]
fn dates_read_last_part_first() {
    assert_eq!(date_str_to_sexpr("1.1.1970".to_string()).to_string(), "(date 1970 1 1)");
    assert_eq!(date_str_to_sexpr("31.12.1970".to_string()).to_string(), "(date 1970 12 31)");
    assert_eq!(date_str_to_sexpr("2024".to_string()).to_string(), "(date 2024)");
    assert_eq!(date_str_to_sexpr("1.2.3.4".to_string()).to_string(), "(date 4 3 2 1)");
}

#[test]
fn bad_dates_give_nothing() {
    assert!(try_date_str_to_sexpr("1..1970").is_none());
    assert!(try_date_str_to_sexpr("").is_none());
    assert!(try_date_str_to_sexpr("1.1.1970 ").is_none());
    assert!(try_date_str_to_sexpr("a.b.c").is_none());
}

#[test]
fn a_row_becomes_an_event() {
    let row = cells(&["1.2.2023", "", "", "1910 Pankkitili", "Kauppa", "Ostos", "", "12.50"]);
    let mut index = 1;
    let e = row_to_sexpr(&row, Some(-1250), &mut index);
    assert_eq!(index, 2);
    assert_eq!(
        e.to_string(),
        "(event 1 (date 2023 2 1) \"Kauppa / Ostos\" ((1130 (money -1250)) (1910 (money 1250))))"
    );
}

#[test]
fn service_fees_go_to_account_3210() {
    let row = cells(&["5.3.2023", "", "", "Palvelumaksut", "Holvi", "Kuukausimaksu", "Maaliskuu", "-3"]);
    let mut index = 7;
    let e = row_to_sexpr(&row, Some(-300), &mut index);
    assert_eq!(index, 8);
    assert_eq!(
        e.to_string(),
        "(event 7 (date 2023 3 5) \"Holvi / Kuukausimaksu / Maaliskuu\" ((1130 (money -300)) (3210 (money 300))))"
    );
}

#[test]
fn descriptions_escape_line_breaks() {
    let d = describe_row(&"a\nb".to_string(), &"c".to_string(), &"d\n".to_string());
    assert_eq!(d, "a\\nb / c / d\\n");
    let d = describe_row(&"a".to_string(), &"".to_string(), &"".to_string());
    assert_eq!(d, "a / ");
}

#[test]
fn rows_that_make_no_event_say_why() {
    let mut index = 1;
    let bad_date = cells(&["1..2023", "", "", "1910", "a", "b", ""]);
    assert_eq!(try_row_to_sexpr(&bad_date, Some(1), &mut index).unwrap_err(), RowError::InvalidDate);
    let bad_account = cells(&["1.1.2023", "", "", "Pankki", "a", "b", ""]);
    assert_eq!(try_row_to_sexpr(&bad_account, Some(1), &mut index).unwrap_err(), RowError::InvalidAccount);
    let short_account = cells(&["1.1.2023", "", "", "191", "a", "b", ""]);
    assert_eq!(try_row_to_sexpr(&short_account, Some(1), &mut index).unwrap_err(), RowError::InvalidAccount);
    let good = cells(&["1.1.2023", "", "", "1910", "a", "b", ""]);
    assert_eq!(try_row_to_sexpr(&good, None, &mut index).unwrap_err(), RowError::InvalidAmount);
    assert_eq!(try_row_to_sexpr(&bad_account, None, &mut index).unwrap_err(), RowError::InvalidAccount);
    assert_eq!(try_row_to_sexpr(&good, Some(i32::MIN), &mut index).unwrap_err(), RowError::AmountOverflow);
    assert_eq!(index, 1);
    let mut last = i32::MAX;
    assert_eq!(try_row_to_sexpr(&good, Some(1), &mut last).unwrap_err(), RowError::IndexOverflow);
    assert_eq!(last, i32::MAX);
}

#[test]
fn a_chart_file_splits_at_its_first_blank_line() {
    let (header, chart) = split_chart_file("LPK 1970\n1.1.1970\n31.12.1970\n\n-1 Vastaavaa\n\n").unwrap();
    assert_eq!(header, "LPK 1970\n1.1.1970\n31.12.1970");
    assert_eq!(chart, "-1 Vastaavaa\n\n");
    assert!(split_chart_file("no blank line\n").is_none());
    let (t, s, e) = header_fields(&header).unwrap();
    assert_eq!((t.as_str(), s.as_str(), e.as_str()), ("LPK 1970", "1.1.1970", "31.12.1970"));
    assert!(header_fields("LPK 1970\n1.1.1970").is_none());
}

#[test]
fn the_opening_event_carries_the_balances() {
    let balances = try_parse("((100 (money 2000)))").unwrap();
    let e = make_opening_event(date_str_to_sexpr("1.1.1970".to_string()), balances);
    assert_eq!(e.to_string(), "(event 0 (date 1970 1 1) \"Tilikauden avaus\" ((100 (money 2000))))");
}

#[test]
fn a_document_holds_the_fiscal_year() {
    let accounts = try_parse("((account 1 \"A\" ()) (account 2 \"B\" ()))").unwrap();
    let events = vec![try_parse("(event 1)").unwrap()];
    let doc = ledger_document(
        "LPK 1970".to_string(),
        date_str_to_sexpr("1.1.1970".to_string()),
        date_str_to_sexpr("31.12.1970".to_string()),
        accounts,
        events,
    );
    assert_eq!(
        doc.to_string(),
        "(identity \"Tappio\" version \"versio 0.22\" finances (fiscal-year \"LPK 1970\" (date 1970 1 1) (date 1970 12 31) (account-map (account 1 \"A\" ()) (account 2 \"B\" ())) ((event 1))))"
    );
}

#[test]
fn mutate_5_5_replaces_the_events_of_a_document() {
    let mut doc = ledger_document(
        "T".to_string(),
        date_str_to_sexpr("1.1.2023".to_string()),
        date_str_to_sexpr("31.12.2023".to_string()),
        Sexpr::List(vec![]),
        vec![try_parse("(event 0)").unwrap()],
    );
    doc.mutate_5_5(Sexpr::List(vec![Sexpr::Atom(A::Number(1)), Sexpr::Atom(A::Number(2))]));
    assert_eq!(
        doc.to_string(),
        "(identity \"Tappio\" version \"versio 0.22\" finances (fiscal-year \"T\" (date 2023 1 1) (date 2023 12 31) (account-map) (1 2)))"
    );
}

#[test]
fn rows_are_numbered_in_order() {
    let rows = vec![
        cells(&["1.1.2023", "", "", "1910", "a", "b", ""]),
        cells(&["2.1.2023", "", "", "3000 Myynti", "c", "d", "e"]),
        cells(&["3.1.2023", "", "", "Palvelumaksut", "f", "g", ""]),
    ];
    let mut index = 1;
    let events = rows_to_events(&rows, &vec![Some(100), Some(-200), Some(5)], &mut index).unwrap();
    assert_eq!(index, 4);
    let numbers: Vec<String> = events.iter().map(|e| e.get(1).to_string()).collect();
    assert_eq!(numbers, vec!["1", "2", "3"]);
    assert_eq!(
        events[1].to_string(),
        "(event 2 (date 2023 1 2) \"c / d / e\" ((1130 (money -200)) (3000 (money 200))))"
    );
}

#[test]
fn the_first_bad_row_decides() {
    let rows = vec![
        cells(&["1.1.2023", "", "", "1910", "a", "b", ""]),
        cells(&["2.1.2023", "", "", "x", "c", "d", ""]),
        cells(&["bad", "", "", "1910", "f", "g", ""]),
    ];
    let mut index = 1;
    let r = rows_to_events(&rows, &vec![Some(1), Some(2), Some(3)], &mut index);
    assert_eq!(r.unwrap_err(), RowError::InvalidAccount);
    assert_eq!(index, 1);
    let mut index = 1;
    let r = rows_to_events(&rows[..1].to_vec(), &vec![None], &mut index);
    assert_eq!(r.unwrap_err(), RowError::InvalidAmount);
}

#[test]
fn row_calls_one_after_another_are_numbered_in_call_order() {
    let rows = vec![
        cells(&["1.1.2023", "", "", "1910", "a", "b", ""]),
        cells(&["2.1.2023", "", "", "3000 Myynti", "c", "d", "e"]),
        cells(&["3.1.2023", "", "", "Palvelumaksut", "f", "g", ""]),
    ];
    let amounts = vec![Some(100), Some(-200), Some(5)];
    let mut index = 5;
    let mut numbers = Vec::new();
    let mut texts = Vec::new();
    for (row, amount) in rows.iter().zip(amounts.iter()) {
        let e = row_to_sexpr(row, *amount, &mut index);
        numbers.push(e.get(1).to_string());
        texts.push(e.to_string());
    }
    assert_eq!(numbers, vec!["5", "6", "7"]);
    assert_eq!(index, 8);
    let mut again = 5;
    let batch = rows_to_events(&rows, &amounts, &mut again).unwrap();
    let batch_texts: Vec<String> = batch.iter().map(|e| e.to_string()).collect();
    assert_eq!(texts, batch_texts);
    assert_eq!(again, 8);
}
