use tappio::sexpr::{Sexpr, A};
use tappio::chart::{
    account_vec_to_sexpr, balance_text, chart_lines, init_account, parse_tk, try_parse_tk,
    ChartError,
};

const README_CHART: &str = "-1 Vastaavaa
  100 Rahat
    110 Pankkitilit
      111 Pankkitili ilman alkusaldoa
      112 Pankkitili alkusaldolla 15000€
    120 Käteiskassa 20.0€
-1 Vastattavaa
  200 Siirtovelat -12,34$
-1 Tulos
  300 Partiotoiminta
    310 Sudenpentutoiminta
      311 Retkien menot
      312 Retkien tulos
    320 Muu partiotoiminta
";

fn readme_cents() -> Vec<Option<i32>> {
    let mut cents = vec![None; 14];
    cents[4] = Some(1500000);
    cents[5] = Some(2000);
    cents[7] = Some(-1234);
    cents
}

#[test]
fn the_readme_chart_reads_as_a_tree() {
    let (accounts, events) = parse_tk(README_CHART.to_string(), readme_cents());
    assert_eq!(
        accounts.to_string(),
        "((account -1 \"Vastaavaa\" ((account 100 \"Rahat\" ((account 110 \"Pankkitilit\" ((account 111 \"Pankkitili ilman alkusaldoa\" ()) (account 112 \"Pankkitili alkusaldolla\" ()))) (account 120 \"Käteiskassa\" ()))))) (account -1 \"Vastattavaa\" ((account 200 \"Siirtovelat\" ()))) (account -1 \"Tulos\" ((account 300 \"Partiotoiminta\" ((account 310 \"Sudenpentutoiminta\" ((account 311 \"Retkien menot\" ()) (account 312 \"Retkien tulos\" ()))) (account 320 \"Muu partiotoiminta\" ()))))))"
    );
    // One event per line with an opening balance, in the order of the lines.
    assert_eq!(
        events.to_string(),
        "((112 (money 1500000)) (120 (money 2000)) (200 (money -1234)))"
    );
}

#[test]
fn accounts_keep_the_order_of_the_lines() {
    // Listed each before its subaccounts, the accounts are the lines in order.
    let (accounts, _) = parse_tk(README_CHART.to_string(), readme_cents());
    let text = accounts.to_string();
    let mut last = 0;
    for number in ["-1 \"Vastaavaa\"", "100 ", "110 ", "111 ", "112 ", "120 ", "-1 \"Vastattavaa\"", "200 ", "-1 \"Tulos\"", "300 ", "310 ", "311 ", "312 ", "320 "] {
        let at = text[last..].find(&format!("(account {}", number)).expect(number) + last;
        assert!(at >= last);
        last = at + 1;
    }
}

#[test]
fn mis_indented_lines_join_the_enclosing_level() {
    let (accounts, _) = parse_tk("1 A\n  2 B\n      3 C\n    4 D\n".to_string(), vec![None; 4]);
    assert_eq!(
        accounts.to_string(),
        "((account 1 \"A\" ((account 2 \"B\" ((account 3 \"C\" ()))) (account 4 \"D\" ()))))"
    );
    assert_eq!(
        try_parse_tk("1 A\n    2 B\n  3 C\n", &vec![None; 3]).unwrap_err(),
        ChartError::IndentBelowFirst
    );
}

#[test]
fn the_character_after_the_number_is_skipped() {
    // The separator need not be a space: whatever follows the number is dropped.
    let (accounts, _) = parse_tk("12x Name  \n".to_string(), vec![None]);
    assert_eq!(accounts.to_string(), "((account 12 \" Name\" ()))");
    let (accounts, _) = parse_tk("12:Name\n".to_string(), vec![None]);
    assert_eq!(accounts.to_string(), "((account 12 \"Name\" ()))");
}

#[test]
fn chart_errors_say_why() {
    assert_eq!(try_parse_tk("", &vec![]).unwrap_err(), ChartError::NoLines);
    assert_eq!(try_parse_tk("1 A\n\n2 B", &vec![None; 3]).unwrap_err(), ChartError::BlankLine);
    assert_eq!(try_parse_tk("1 A\n   \n2 B", &vec![None; 3]).unwrap_err(), ChartError::BlankLine);
    assert_eq!(try_parse_tk("x A", &vec![None]).unwrap_err(), ChartError::InvalidAccountNumber);
    assert_eq!(try_parse_tk("1-2 A", &vec![None]).unwrap_err(), ChartError::InvalidAccountNumber);
    assert_eq!(try_parse_tk("1", &vec![None]).unwrap_err(), ChartError::MissingName);
    assert_eq!(try_parse_tk("1 ", &vec![None]).unwrap_err(), ChartError::MissingName);
    assert_eq!(try_parse_tk("1 A5€", &vec![None]).unwrap_err(), ChartError::MissingBalanceSeparator);
    assert_eq!(try_parse_tk("1 A 5€", &vec![None]).unwrap_err(), ChartError::InvalidBalance);
    assert_eq!(try_parse_tk("  1 A\n2 B", &vec![None; 2]).unwrap_err(), ChartError::IndentBelowFirst);
    assert_eq!(try_parse_tk("  1 A", &vec![None]).unwrap_err(), ChartError::IndentBelowFirst);
}

#[test]
fn lines_split_as_str_lines_splits() {
    for text in ["a\r\nb\n\nc\n", "", "\n", "a", "a\r", "x\n\ny\r\n\r\n"] {
        let expected: Vec<String> = text.lines().map(|l| l.to_string()).collect();
        assert_eq!(chart_lines(text), expected, "{:?}", text);
    }
}

#[test]
fn balance_texts_use_a_decimal_point() {
    assert_eq!(balance_text("      112 Pankkitili alkusaldolla 15000€"), Some("15000".to_string()));
    assert_eq!(balance_text("  200 Siirtovelat -12,34$"), Some("-12.34".to_string()));
    assert_eq!(balance_text("    120 Käteiskassa 20.0€  "), Some("20.0".to_string()));
    assert_eq!(balance_text("  100 Rahat"), None);
    assert_eq!(balance_text("x Rahat 5€"), None);
}

#[test]
fn accounts_build_and_write() {
    let mut a = init_account(100, "Rahat".to_string());
    a.push_child(init_account(110, "Pankki".to_string()));
    let mut more = vec![init_account(120, "Kassa".to_string())];
    a.append_children(&mut more);
    assert!(more.is_empty());
    assert_eq!(
        a.to_sexpr().to_string(),
        "(account 100 \"Rahat\" ((account 110 \"Pankki\" ()) (account 120 \"Kassa\" ())))"
    );
    let mut all = vec![a, init_account(-1, "Tulos".to_string())];
    assert_eq!(
        account_vec_to_sexpr(&mut all).to_string(),
        "((account 100 \"Rahat\" ((account 110 \"Pankki\" ()) (account 120 \"Kassa\" ()))) (account -1 \"Tulos\" ()))"
    );
}

/// The depth and number of each account of an account list, in document order.
fn walk(list: &Sexpr, depth: usize, out: &mut Vec<(usize, i32)>) {
    if let Sexpr::List(accounts) = list {
        for a in accounts {
            if let Sexpr::List(fields) = a {
                if let Sexpr::Atom(A::Number(n)) = &fields[1] {
                    out.push((depth, *n));
                }
                walk(&fields[3], depth + 1, out);
            }
        }
    }
}

#[test]
fn top_accounts_are_the_unindented_lines() {
    let (accounts, _) = parse_tk(README_CHART.to_string(), readme_cents());
    let mut names = Vec::new();
    if let Sexpr::List(top) = &accounts {
        for a in top {
            names.push(a.get(2).to_string());
        }
    }
    assert_eq!(names, vec!["\"Vastaavaa\"", "\"Vastattavaa\"", "\"Tulos\""]);
}

#[test]
fn the_tree_follows_the_indentation() {
    let (accounts, _) = parse_tk(README_CHART.to_string(), readme_cents());
    let mut found = Vec::new();
    walk(&accounts, 0, &mut found);
    assert_eq!(
        found,
        vec![(0, -1), (1, 100), (2, 110), (3, 111), (3, 112), (2, 120), (0, -1), (1, 200), (0, -1), (1, 300), (2, 310), (3, 311), (3, 312), (2, 320)]
    );
}

#[test]
fn balances_read_alike_whatever_their_separator_and_sign() {
    let comma = "-1 Vastattavaa\n  200 Siirtovelat -12,34$\n  210 Muut 1,5€\n";
    let point = "-1 Vastattavaa\n  200 Siirtovelat -12.34€\n  210 Muut 1.5$\n";
    let cents = vec![None, Some(-1234), Some(150)];
    for (a, b) in chart_lines(comma).iter().zip(chart_lines(point).iter()) {
        assert_eq!(balance_text(a), balance_text(b));
    }
    let (a1, e1) = parse_tk(comma.to_string(), cents.clone());
    let (a2, e2) = parse_tk(point.to_string(), cents);
    assert_eq!(a1.to_string(), a2.to_string());
    assert_eq!(e1.to_string(), e2.to_string());
}

#[test]
fn a_dedented_line_stands_beside_the_earlier_line_indented_as_far() {
    // 4 goes back to the indentation of 2 and stands beside it; 5 beside 1.
    let (accounts, _) =
        parse_tk("1 A\n  2 B\n    3 C\n  4 D\n5 E\n".to_string(), vec![None; 5]);
    let mut found = Vec::new();
    walk(&accounts, 0, &mut found);
    assert_eq!(found, vec![(0, 1), (1, 2), (2, 3), (1, 4), (0, 5)]);
    // Where a line goes back to no earlier indentation, the lines after it
    // follow the levels as they stand: 4 joins the level of 2, and 5, though
    // indented as far as 2, closes that level and stands beside 1.
    let chart = "0 R\n  1 A\n    2 B\n        3 C\n      4 D\n    5 E\n";
    let (accounts, _) = parse_tk(chart.to_string(), vec![None; 6]);
    let mut found = Vec::new();
    walk(&accounts, 0, &mut found);
    assert_eq!(found, vec![(0, 0), (1, 1), (2, 2), (3, 3), (2, 4), (1, 5)]);
}
