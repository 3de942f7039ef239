//! Building a Tappio ledger: dates, journal rows as events, the header of a
//! chart file and the document that holds it all.
use vstd::prelude::*;

use crate::reader::{lemma_scan, scan};
use crate::sexpr::{items, lemma_list_view, list, num, quoted, sym, views, Sexpr, SpecSexpr, A};
use crate::text::{
    all_digits, chars_of, digit_value, digits_value, is_digit, parse_i32, push_char, spec_parse_i32,
    string_of,
};

verus! {

/// `s` split at each `sep`, as `str::split` gives it: one part more than
/// there are separators.
/// The index of the first `sep` from `i` on, or the end.
pub open spec fn sep_at(s: Seq<char>, i: int, sep: char) -> int {
    scan(s, i, |c: char| c == sep)
}

pub open spec fn split_on(s: Seq<char>, sep: char) -> Seq<Seq<char>>
    decreases s.len(),
{
    let j = sep_at(s, 0, sep);
    if j >= s.len() {
        seq![s]
    } else {
        proof {
            lemma_scan(s, 0, |c: char| c == sep);
        }
        seq![s.take(j)] + split_on(s.skip(j + 1), sep)
    }
}

proof fn lemma_sep_at(s: Seq<char>, i: int, sep: char)
    requires
        0 <= i <= s.len(),
    ensures
        i <= sep_at(s, i, sep) <= s.len(),
        forall|k: int| i <= k < sep_at(s, i, sep) ==> #[trigger] s[k] != sep,
        sep_at(s, i, sep) < s.len() ==> s[sep_at(s, i, sep)] == sep,
    decreases s.len() - i,
{
    if i < s.len() && s[i] != sep {
        lemma_sep_at(s, i + 1, sep);
    }
}

proof fn lemma_scan_skip_eq(s: Seq<char>, p: int, i: int, sep: char)
    requires
        0 <= p <= s.len(),
        0 <= i,
    ensures
        sep_at(s.skip(p), i, sep) == sep_at(s, p + i, sep) - p,
    decreases s.len() - p - i,
{
    if p + i < s.len() && s[p + i] != sep {
        lemma_scan_skip_eq(s, p, i + 1, sep);
    }
}

/// The parts of `cs` between the separators `sep`.
pub fn split_chars(cs: &Vec<char>, sep: char) -> (r: Vec<Vec<char>>)
    ensures
        r@.len() == split_on(cs@, sep).len(),
        forall|k: int| 0 <= k < r@.len() ==> #[trigger] r@[k]@ == split_on(cs@, sep)[k],
{
    let n = cs.len();
    let mut r: Vec<Vec<char>> = Vec::new();
    let ghost mut done: Seq<Seq<char>> = Seq::empty();
    let mut pos: usize = 0;
    assert(cs@.skip(0) =~= cs@);
    assert(done + split_on(cs@, sep) =~= split_on(cs@, sep));
    loop
        invariant
            n == cs@.len(),
            pos <= n,
            r@.len() == done.len(),
            forall|k: int| 0 <= k < r@.len() ==> #[trigger] r@[k]@ == done[k],
            split_on(cs@, sep) == done + split_on(cs@.skip(pos as int), sep),
        decreases n - pos,
    {
        let ghost rest = cs@.skip(pos as int);
        let mut j = pos;
        while j < n && cs[j] != sep
            invariant
                pos <= j <= n,
                n == cs@.len(),
                sep_at(cs@, pos as int, sep) == sep_at(cs@, j as int, sep),
            decreases n - j,
        {
            j = j + 1;
        }
        proof {
            lemma_scan_skip_eq(cs@, pos as int, 0, sep);
            lemma_sep_at(cs@, pos as int, sep);
        }
        let mut part: Vec<char> = Vec::new();
        let mut i = pos;
        while i < j
            invariant
                pos <= i <= j <= n,
                n == cs@.len(),
                part@ == cs@.subrange(pos as int, i as int),
            decreases j - i,
        {
            part.push(cs[i]);
            i = i + 1;
            assert(part@ =~= cs@.subrange(pos as int, i as int));
        }
        let ghost p = part@;
        r.push(part);
        proof {
            done = done.push(p);
        }
        if j >= n {
            assert(p =~= rest);
            assert(split_on(rest, sep) == seq![rest]);
            assert(split_on(cs@, sep) =~= done);
            return r;
        }
        assert(p =~= rest.take(j - pos));
        assert(rest.skip(j - pos + 1) =~= cs@.skip(j + 1));
        pos = j + 1;
        assert(split_on(cs@, sep) =~= done + split_on(cs@.skip(pos as int), sep));
    }
}

/// The numbers of a date's parts, last part first; nothing where a part is
/// no `i32`.
pub open spec fn date_numbers(parts: Seq<Seq<char>>) -> Option<Seq<i32>>
    decreases parts.len(),
{
    if parts.len() == 0 {
        Some(Seq::empty())
    } else {
        match spec_parse_i32(parts.last()) {
            None => None,
            Some(n) => match date_numbers(parts.drop_last()) {
                None => None,
                Some(rest) => Some(seq![n] + rest),
            },
        }
    }
}

/// The number atoms of `ns`.
pub open spec fn nums(ns: Seq<i32>) -> Seq<SpecSexpr> {
    Seq::new(ns.len(), |i: int| num(ns[i]))
}

/// The date written `d.m.y` as `(date y m d)`: the parts between the dots,
/// last first, as numbers; nothing where a part is no number.
pub open spec fn spec_date(s: Seq<char>) -> Option<SpecSexpr> {
    match date_numbers(split_on(s, '.')) {
        None => None,
        Some(ns) => Some(list(seq![sym("date"@)] + nums(ns))),
    }
}

/// An atom holding the symbol `s`.
fn symbol(s: &str) -> (r: Sexpr)
    ensures
        r@ == sym(s@),
{
    Sexpr::Atom(A::Symbol(String::from_str(s)))
}

/// An atom holding the string `s`.
fn string_atom(s: &str) -> (r: Sexpr)
    ensures
        r@ == quoted(s@),
{
    Sexpr::Atom(A::String(String::from_str(s)))
}

/// The list of `v`.
fn list_of(v: Vec<Sexpr>) -> (r: Sexpr)
    ensures
        r@ == list(views(v@)),
{
    proof {
        lemma_list_view(v);
    }
    Sexpr::List(v)
}

/// Reads the date `s`, written `d.m.y`, as `(date y m d)`; nothing where a
/// part of it is no number.
pub fn try_date_str_to_sexpr(s: &str) -> (r: Option<Sexpr>)
    ensures
        match r {
            Some(e) => spec_date(s@) == Some(e@),
            None => spec_date(s@) is None,
        },
{
    let cs = chars_of(s);
    let parts = split_chars(&cs, '.');
    let ghost ps = split_on(s@, '.');
    let mut out: Vec<Sexpr> = Vec::new();
    out.push(symbol("date"));
    let ghost mut done: Seq<i32> = Seq::empty();
    let mut k = parts.len();
    assert(views(out@) =~= seq![sym("date"@)] + nums(done));
    assert(ps.take(k as int) =~= ps);
    while k > 0
        invariant
            cs@ == s@,
            ps == split_on(s@, '.'),
            parts@.len() == ps.len(),
            forall|m: int| 0 <= m < parts@.len() ==> #[trigger] parts@[m]@ == ps[m],
            k <= ps.len(),
            views(out@) == seq![sym("date"@)] + nums(done),
            date_numbers(ps) is Some <==> date_numbers(ps.take(k as int)) is Some,
            date_numbers(ps) is Some ==> date_numbers(ps)->0 == done + date_numbers(
                ps.take(k as int),
            )->0,
        decreases k,
    {
        let part = &parts[k - 1];
        let ghost t = ps.take(k as int);
        assert(t.last() == ps[k - 1]);
        assert(t.drop_last() =~= ps.take(k - 1));
        assert(part@.subrange(0, part@.len() as int) =~= ps[k - 1]);
        match parse_i32(part, 0, part.len()) {
            None => {
                return None;
            },
            Some(n) => {
                let e = Sexpr::Atom(A::Number(n));
                assert(e@ == num(n));
                let ghost old_out = out@;
                out.push(e);
                assert(views(out@) =~= views(old_out).push(num(n)));
                proof {
                    if date_numbers(ps) is Some {
                        assert(done + date_numbers(t)->0 =~= done.push(n) + date_numbers(
                            ps.take(k - 1),
                        )->0);
                    }
                    done = done.push(n);
                    assert(views(out@) =~= seq![sym("date"@)] + nums(done));
                }
                k = k - 1;
            },
        }
    }
    assert(ps.take(0) =~= Seq::<Seq<char>>::empty());
    assert(date_numbers(ps)->0 =~= done);
    Some(list_of(out))
}

/// Reads the date `s`, written `d.m.y`, as `(date y m d)`; each part of it
/// must be a number.
pub fn date_str_to_sexpr(s: String) -> (r: Sexpr)
    requires
        spec_date(s@) is Some,
    ensures
        spec_date(s@) == Some(r@),
{
    match try_date_str_to_sexpr(s.as_str()) {
        Some(e) => e,
        None => {
            proof {
                assert(false);
            }
            Sexpr::List(Vec::new())
        },
    }
}

/// `s` with each line break written as a backslash and an `n`.
pub open spec fn escape_newlines(s: Seq<char>) -> Seq<char>
    decreases s.len(),
{
    if s.len() == 0 {
        Seq::empty()
    } else {
        escape_newlines(s.drop_last()) + if s.last() == '\n' {
            seq!['\\', 'n']
        } else {
            seq![s.last()]
        }
    }
}

/// The description of a journal row: its three text cells joined by ` / `,
/// the third only where it is not empty, line breaks escaped.
pub open spec fn row_description(c4: Seq<char>, c5: Seq<char>, c6: Seq<char>) -> Seq<char> {
    escape_newlines(
        if c6.len() > 0 {
            c4 + " / "@ + c5 + " / "@ + c6
        } else {
            c4 + " / "@ + c5
        },
    )
}

/// The account of a journal row: `3210` for service fees, else the number
/// that the cell starts with (its first four characters).
pub open spec fn row_account(c3: Seq<char>) -> Option<i32> {
    if c3 == "Palvelumaksut"@ {
        Some(3210)
    } else if c3.len() >= 4 {
        spec_parse_i32(c3.take(4))
    } else {
        None
    }
}

/// Why a journal row makes no event.
#[derive(Clone, Copy, Debug, PartialEq, Eq)]
pub enum RowError {
    /// The date cell is no date.
    InvalidDate,
    /// The account cell starts with no account number.
    InvalidAccount,
    /// The amount cell is no number.
    InvalidAmount,
    /// The event number would pass `i32::MAX`.
    IndexOverflow,
    /// The amount cannot be negated.
    AmountOverflow,
}

/// The event of a journal row, numbered `index`: the amount of `amount`
/// cents goes to account 1130 and is taken from the row's account.
/// `row` holds the texts of the row's cells; `amount` is nothing where the
/// amount cell holds no number.
pub open spec fn row_event(row: Seq<Seq<char>>, amount: Option<i32>, index: i32) -> Result<
    SpecSexpr,
    RowError,
> {
    match spec_date(row[0]) {
        None => Err(RowError::InvalidDate),
        Some(date) => match row_account(row[3]) {
            None => Err(RowError::InvalidAccount),
            Some(account) => match amount {
                None => Err(RowError::InvalidAmount),
                Some(cents) => if index == i32::MAX {
                    Err(RowError::IndexOverflow)
                } else if cents == i32::MIN {
                    Err(RowError::AmountOverflow)
                } else {
                    Ok(
                        list(
                            seq![
                                sym("event"@),
                                num(index),
                                date,
                                quoted(row_description(row[4], row[5], row[6])),
                                list(
                                    seq![
                                        list(
                                            seq![num(1130), list(seq![sym("money"@), num(cents)])],
                                        ),
                                        list(
                                            seq![
                                                num(account),
                                                list(seq![sym("money"@), num((-cents) as i32)]),
                                            ],
                                        ),
                                    ],
                                ),
                            ],
                        ),
                    )
                },
            },
        },
    }
}

/// The texts of the cells of `row`.
pub open spec fn cell_texts(row: Seq<String>) -> Seq<Seq<char>> {
    Seq::new(row.len(), |i: int| row[i]@)
}

/// Appends `s` to `out` with its line breaks escaped.
fn push_escaped(out: &mut String, s: &String)
    ensures
        final(out)@ == old(out)@ + escape_newlines(s@),
{
    let cs = chars_of(s.as_str());
    let mut i: usize = 0;
    while i < cs.len()
        invariant
            i <= cs@.len(),
            cs@ == s@,
            out@ == old(out)@ + escape_newlines(cs@.take(i as int)),
        decreases cs@.len() - i,
    {
        let c = cs[i];
        assert(cs@.take(i + 1).drop_last() =~= cs@.take(i as int));
        if c == '\n' {
            push_char(out, '\\');
            push_char(out, 'n');
        } else {
            push_char(out, c);
        }
        i = i + 1;
        assert(out@ =~= old(out)@ + escape_newlines(cs@.take(i as int)));
    }
    assert(cs@.take(cs@.len() as int) =~= cs@);
}

/// The description of a journal row, from its text cells.
pub fn describe_row(c4: &String, c5: &String, c6: &String) -> (r: String)
    ensures
        r@ == row_description(c4@, c5@, c6@),
{
    let mut joined = c4.clone();
    joined.append(" / ");
    joined.append(c5.as_str());
    if !c6.as_str().is_empty() {
        joined.append(" / ");
        joined.append(c6.as_str());
    }
    let mut r = String::new();
    push_escaped(&mut r, &joined);
    assert(r@ =~= row_description(c4@, c5@, c6@));
    r
}

/// The account of a journal row, from its account cell.
pub fn account_of_row(c3: &String) -> (r: Option<i32>)
    ensures
        r == row_account(c3@),
{
    if *c3 == String::from_str("Palvelumaksut") {
        return Some(3210);
    }
    let cs = chars_of(c3.as_str());
    if cs.len() < 4 {
        return None;
    }
    let r = parse_i32(&cs, 0, 4);
    assert(cs@.subrange(0, 4) =~= c3@.take(4));
    r
}

/// The event of a journal row whose cells hold the texts `row` and whose
/// amount is `amount` cents, numbered by `event_index`, which then counts on;
/// or why the row makes none, leaving `event_index` as it was.
pub fn try_row_to_sexpr(row: &Vec<String>, amount: Option<i32>, event_index: &mut i32) -> (r: Result<
    Sexpr,
    RowError,
>)
    requires
        row@.len() >= 7,
    ensures
        match r {
            Ok(e) => row_event(cell_texts(row@), amount, *old(event_index)) == Ok::<
                SpecSexpr,
                RowError,
            >(e@) && *final(event_index) == *old(event_index) + 1,
            Err(err) => row_event(cell_texts(row@), amount, *old(event_index)) == Err::<
                SpecSexpr,
                RowError,
            >(err) && *final(event_index) == *old(event_index),
        },
{
    let ghost cells = cell_texts(row@);
    assert(cells[0] == row@[0]@ && cells[3] == row@[3]@ && cells[4] == row@[4]@);
    assert(cells[5] == row@[5]@ && cells[6] == row@[6]@);
    let date = match try_date_str_to_sexpr(row[0].as_str()) {
        Some(d) => d,
        None => {
            return Err(RowError::InvalidDate);
        },
    };
    let description = describe_row(&row[4], &row[5], &row[6]);
    let account = match account_of_row(&row[3]) {
        Some(a) => a,
        None => {
            return Err(RowError::InvalidAccount);
        },
    };
    let cents = match amount {
        Some(c) => c,
        None => {
            return Err(RowError::InvalidAmount);
        },
    };
    let i = *event_index;
    if i == i32::MAX {
        return Err(RowError::IndexOverflow);
    }
    if cents == i32::MIN {
        return Err(RowError::AmountOverflow);
    }
    *event_index = i + 1;
    let mut credit: Vec<Sexpr> = Vec::new();
    credit.push(symbol("money"));
    credit.push(Sexpr::Atom(A::Number(cents)));
    let mut first: Vec<Sexpr> = Vec::new();
    first.push(Sexpr::Atom(A::Number(1130)));
    first.push(list_of(credit));
    let mut debit: Vec<Sexpr> = Vec::new();
    debit.push(symbol("money"));
    debit.push(Sexpr::Atom(A::Number(-cents)));
    let mut second: Vec<Sexpr> = Vec::new();
    second.push(Sexpr::Atom(A::Number(account)));
    second.push(list_of(debit));
    let mut entries: Vec<Sexpr> = Vec::new();
    entries.push(list_of(first));
    entries.push(list_of(second));
    let mut ev: Vec<Sexpr> = Vec::new();
    ev.push(symbol("event"));
    ev.push(Sexpr::Atom(A::Number(i)));
    ev.push(date);
    ev.push(Sexpr::Atom(A::String(description)));
    ev.push(list_of(entries));
    let r = list_of(ev);
    proof {
        let expected = row_event(cells, amount, i)->Ok_0;
        assert(views(credit@) =~= seq![sym("money"@), num(cents)]);
        assert(views(debit@) =~= seq![sym("money"@), num((-cents) as i32)]);
        assert(views(first@) =~= seq![num(1130), list(seq![sym("money"@), num(cents)])]);
        assert(views(second@) =~= seq![num(account), list(seq![sym("money"@), num((-cents) as i32)])]);
        assert(views(entries@) =~= expected->List_0[4]->List_0);
        assert(views(ev@) =~= expected->List_0);
    }
    Ok(r)
}

/// The event of a journal row whose cells hold the texts `row` and whose
/// amount is `amount` cents, numbered by `event_index`, which then counts on.
pub fn row_to_sexpr(row: &Vec<String>, amount: Option<i32>, event_index: &mut i32) -> (r: Sexpr)
    requires
        row@.len() >= 7,
        row_event(cell_texts(row@), amount, *old(event_index)) is Ok,
    ensures
        row_event(cell_texts(row@), amount, *old(event_index)) == Ok::<SpecSexpr, RowError>(r@),
        *final(event_index) == *old(event_index) + 1,
{
    match try_row_to_sexpr(row, amount, event_index) {
        Ok(e) => e,
        Err(_) => {
            proof {
                assert(false);
            }
            Sexpr::List(Vec::new())
        },
    }
}


/// The index of the first two consecutive line breaks from `i` on, or -1.
pub open spec fn blank_line_at(s: Seq<char>, i: int) -> int
    decreases s.len() - i,
{
    if i < 0 || i + 1 >= s.len() {
        -1
    } else if s[i] == '\n' && s[i + 1] == '\n' {
        i
    } else {
        blank_line_at(s, i + 1)
    }
}

/// A chart file split at its first blank line into its header and its chart
/// (as `str::split_once("\n\n")` splits it); nothing where it has no blank line.
pub open spec fn spec_split_chart_file(s: Seq<char>) -> Option<(Seq<char>, Seq<char>)> {
    let b = blank_line_at(s, 0);
    if b < 0 {
        None
    } else {
        Some((s.take(b), s.skip(b + 2)))
    }
}

/// The title, first day and last day of the fiscal year: the first three
/// lines of a header; nothing where it has fewer.
pub open spec fn spec_header_fields(h: Seq<char>) -> Option<(Seq<char>, Seq<char>, Seq<char>)> {
    let lines = split_on(h, '\n');
    if lines.len() < 3 {
        None
    } else {
        Some((lines[0], lines[1], lines[2]))
    }
}

/// Splits a chart file into its header and its chart.
pub fn split_chart_file(s: &str) -> (r: Option<(String, String)>)
    ensures
        match r {
            Some((h, c)) => spec_split_chart_file(s@) == Some((h@, c@)),
            None => spec_split_chart_file(s@) is None,
        },
{
    let cs = chars_of(s);
    let n = cs.len();
    let mut i: usize = 0;
    while i < n && i + 1 < n && !(cs[i] == '\n' && cs[i + 1] == '\n')
        invariant
            cs@ == s@,
            n == cs@.len(),
            i <= n,
            blank_line_at(cs@, 0) == blank_line_at(cs@, i as int),
        decreases n - i,
    {
        i = i + 1;
    }
    if i >= n || i + 1 >= n {
        return None;
    }
    let header = string_of(&cs, 0, i);
    let chart = string_of(&cs, i + 2, n);
    assert(cs@.subrange(0, i as int) =~= s@.take(i as int));
    assert(cs@.subrange(i + 2, n as int) =~= s@.skip(i + 2));
    Some((header, chart))
}

/// The title, first day and last day of the fiscal year from a header.
pub fn header_fields(h: &str) -> (r: Option<(String, String, String)>)
    ensures
        match r {
            Some((t, a, b)) => spec_header_fields(h@) == Some((t@, a@, b@)),
            None => spec_header_fields(h@) is None,
        },
{
    let cs = chars_of(h);
    let parts = split_chars(&cs, '\n');
    if parts.len() < 3 {
        return None;
    }
    let title = string_of(&parts[0], 0, parts[0].len());
    let start = string_of(&parts[1], 0, parts[1].len());
    let end = string_of(&parts[2], 0, parts[2].len());
    assert(parts@[0]@.subrange(0, parts@[0]@.len() as int) =~= parts@[0]@);
    assert(parts@[1]@.subrange(0, parts@[1]@.len() as int) =~= parts@[1]@);
    assert(parts@[2]@.subrange(0, parts@[2]@.len() as int) =~= parts@[2]@);
    Some((title, start, end))
}

/// The event that opens the fiscal year on `date` with the opening balances
/// `balances`: `(event 0 DATE "Tilikauden avaus" BALANCES)`.
pub open spec fn opening_event(date: SpecSexpr, balances: SpecSexpr) -> SpecSexpr {
    list(seq![sym("event"@), num(0), date, quoted("Tilikauden avaus"@), balances])
}

/// The event that opens the fiscal year on `date` with the opening balances
/// `balances`.
pub fn make_opening_event(date: Sexpr, balances: Sexpr) -> (r: Sexpr)
    ensures
        r@ == opening_event(date@, balances@),
{
    let ghost d = date@;
    let ghost b = balances@;
    let mut v: Vec<Sexpr> = Vec::new();
    v.push(symbol("event"));
    v.push(Sexpr::Atom(A::Number(0)));
    v.push(date);
    v.push(string_atom("Tilikauden avaus"));
    v.push(balances);
    let r = list_of(v);
    assert(views(v@) =~= opening_event(d, b)->List_0);
    r
}

/// A Tappio document for the fiscal year `title` from `start` to `end`, with
/// the accounts of the list `account_map` and the events `events`:
/// `(identity "Tappio" version "versio 0.22" finances (fiscal-year "TITLE"
/// START END (account-map ACCOUNTS...) (EVENTS...)))`.
pub open spec fn document(
    title: Seq<char>,
    start: SpecSexpr,
    end: SpecSexpr,
    account_map: SpecSexpr,
    events: Seq<SpecSexpr>,
) -> SpecSexpr {
    list(
        seq![
            sym("identity"@),
            quoted("Tappio"@),
            sym("version"@),
            quoted("versio 0.22"@),
            sym("finances"@),
            list(
                seq![
                    sym("fiscal-year"@),
                    quoted(title),
                    start,
                    end,
                    list(seq![sym("account-map"@)] + items(account_map)),
                    list(events),
                ],
            ),
        ],
    )
}

/// A Tappio document for the fiscal year `title` from `start` to `end`, with
/// the accounts of the list `account_map` and the events `events`.
pub fn ledger_document(
    title: String,
    start: Sexpr,
    end: Sexpr,
    account_map: Sexpr,
    events: Vec<Sexpr>,
) -> (r: Sexpr)
    requires
        account_map@ is List,
    ensures
        r@ == document(title@, start@, end@, account_map@, views(events@)),
{
    let ghost (t, s, e, m, evs) = (title@, start@, end@, account_map@, views(events@));
    let mut head: Vec<Sexpr> = Vec::new();
    head.push(symbol("account-map"));
    let mut am = list_of(head);
    assert(views(head@) =~= seq![sym("account-map"@)]);
    am.append(account_map);
    let mut year: Vec<Sexpr> = Vec::new();
    year.push(symbol("fiscal-year"));
    year.push(Sexpr::Atom(A::String(title)));
    year.push(start);
    year.push(end);
    year.push(am);
    year.push(list_of(events));
    let mut doc: Vec<Sexpr> = Vec::new();
    doc.push(symbol("identity"));
    doc.push(string_atom("Tappio"));
    doc.push(symbol("version"));
    doc.push(string_atom("versio 0.22"));
    doc.push(symbol("finances"));
    doc.push(list_of(year));
    let r = list_of(doc);
    proof {
        let expected = document(t, s, e, m, evs);
        assert(views(year@) =~= expected->List_0[5]->List_0);
        assert(views(doc@) =~= expected->List_0);
    }
    r
}


/// In a Tappio document, `mutate_5_5` replaces the events of the fiscal
/// year: the sixth item of the document is the fiscal year, whose sixth item
/// is its list of events.
pub proof fn law_mutate_5_5_replaces_events(
    title: Seq<char>,
    start: SpecSexpr,
    end: SpecSexpr,
    account_map: SpecSexpr,
    events: Seq<SpecSexpr>,
    new_events: Seq<SpecSexpr>,
)
    ensures
        crate::sexpr::mutated_5_5(document(title, start, end, account_map, events), list(new_events))
            == document(title, start, end, account_map, new_events),
{
    let d = document(title, start, end, account_map, events);
    let year = d->List_0[5];
    assert(year->List_0.update(5, list(new_events)) =~= document(
        title,
        start,
        end,
        account_map,
        new_events,
    )->List_0[5]->List_0);
    assert(d->List_0.update(5, list(year->List_0.update(5, list(new_events)))) =~= document(
        title,
        start,
        end,
        account_map,
        new_events,
    )->List_0);
}


proof fn lemma_split_on_part(a: Seq<char>, b: Seq<char>, sep: char)
    requires
        !a.contains(sep),
    ensures
        split_on(a + seq![sep] + b, sep) == seq![a] + split_on(b, sep),
{
    let s = a + seq![sep] + b;
    assert forall|k: int| 0 <= k < a.len() implies !((|c: char| c == sep)(#[trigger] s[k])) by {
        assert(s[k] == a[k]);
        if s[k] == sep {
            assert(a.contains(sep));
        }
    }
    lemma_sep_at_exact(s, 0, a.len() as int, sep);
    assert(s.take(a.len() as int) =~= a);
    assert(s.skip(a.len() as int + 1) =~= b);
}

proof fn lemma_sep_at_exact(s: Seq<char>, i: int, b: int, sep: char)
    requires
        0 <= i <= b < s.len(),
        forall|k: int| i <= k < b ==> !((|c: char| c == sep)(#[trigger] s[k])),
        s[b] == sep,
    ensures
        sep_at(s, i, sep) == b,
    decreases b - i,
{
    if i < b {
        lemma_sep_at_exact(s, i + 1, b, sep);
    }
}

proof fn lemma_split_on_whole(a: Seq<char>, sep: char)
    requires
        !a.contains(sep),
    ensures
        split_on(a, sep) == seq![a],
{
    lemma_sep_at(a, 0, sep);
    if sep_at(a, 0, sep) < a.len() {
        assert(a[sep_at(a, 0, sep)] == sep);
        assert(a.contains(sep));
    }
}

/// A date written `d.m.y` reads as `(date y m d)`.
pub proof fn law_date_reads_year_first(d: Seq<char>, m: Seq<char>, y: Seq<char>)
    requires
        !d.contains('.'),
        !m.contains('.'),
        !y.contains('.'),
        spec_parse_i32(d) is Some,
        spec_parse_i32(m) is Some,
        spec_parse_i32(y) is Some,
    ensures
        spec_date(d + seq!['.'] + m + seq!['.'] + y) == Some(
            list(
                seq![
                    sym("date"@),
                    num(spec_parse_i32(y)->0),
                    num(spec_parse_i32(m)->0),
                    num(spec_parse_i32(d)->0),
                ],
            ),
        ),
{
    let rest = m + seq!['.'] + y;
    assert(d + seq!['.'] + m + seq!['.'] + y =~= d + seq!['.'] + rest);
    lemma_split_on_part(d, rest, '.');
    lemma_split_on_part(m, y, '.');
    lemma_split_on_whole(y, '.');
    let parts = split_on(d + seq!['.'] + rest, '.');
    assert(parts =~= seq![d, m, y]);
    let (dn, mn, yn) = (spec_parse_i32(d)->0, spec_parse_i32(m)->0, spec_parse_i32(y)->0);
    assert(parts.drop_last() =~= seq![d, m]);
    assert(parts.drop_last().drop_last() =~= seq![d]);
    assert(parts.drop_last().drop_last().drop_last() =~= Seq::<Seq<char>>::empty());
    assert(date_numbers(seq![d]) == Some(seq![dn])) by {
        assert(seq![d].drop_last() =~= Seq::<Seq<char>>::empty());
        assert(date_numbers(seq![d].drop_last()) == Some(Seq::<i32>::empty()));
        assert(seq![d].last() == d);
        assert(seq![dn] + Seq::<i32>::empty() =~= seq![dn]);
    }
    assert(date_numbers(seq![d, m]) == Some(seq![mn, dn])) by {
        assert(seq![d, m].drop_last() =~= seq![d]);
        assert(seq![mn] + seq![dn] =~= seq![mn, dn]);
    }
    assert(date_numbers(parts) == Some(seq![yn, mn, dn])) by {
        assert(seq![yn] + seq![mn, dn] =~= seq![yn, mn, dn]);
    }
    assert(seq![sym("date"@)] + nums(seq![yn, mn, dn]) =~= seq![
        sym("date"@),
        num(yn),
        num(mn),
        num(dn),
    ]);
}


/// The texts of the cells of each of `rows`.
pub open spec fn rows_texts(rows: Seq<Vec<String>>) -> Seq<Seq<Seq<char>>> {
    Seq::new(rows.len(), |j: int| cell_texts(rows[j]@))
}

/// The events of the journal rows `rows`, numbered from `first` on in the
/// order of the rows; `amounts[j]` is the amount of row `j`. The first row
/// that makes no event decides the error.
pub open spec fn rows_events(
    rows: Seq<Seq<Seq<char>>>,
    amounts: Seq<Option<i32>>,
    first: i32,
) -> Result<Seq<SpecSexpr>, RowError>
    decreases rows.len(),
{
    if rows.len() == 0 {
        Ok(Seq::empty())
    } else {
        match rows_events(rows.drop_last(), amounts, first) {
            Err(e) => Err(e),
            Ok(evs) => match row_event(
                rows.last(),
                amounts[rows.len() - 1],
                (first + rows.len() - 1) as i32,
            ) {
                Err(e) => Err(e),
                Ok(ev) => Ok(evs.push(ev)),
            },
        }
    }
}

proof fn lemma_rows_events_error(
    rows: Seq<Seq<Seq<char>>>,
    amounts: Seq<Option<i32>>,
    first: i32,
    j: int,
)
    requires
        0 <= j <= rows.len(),
        rows_events(rows.take(j), amounts, first) is Err,
    ensures
        rows_events(rows, amounts, first) == rows_events(rows.take(j), amounts, first),
    decreases rows.len() - j,
{
    if j < rows.len() {
        assert(rows.take(j + 1).drop_last() =~= rows.take(j));
        lemma_rows_events_error(rows, amounts, first, j + 1);
    } else {
        assert(rows.take(j) =~= rows);
    }
}

/// The events of the journal rows `rows`, whose amounts are `amounts`,
/// numbered from `event_index` on, which then counts on past them; or the
/// error of the first row that makes none, leaving `event_index` as it was.
pub fn rows_to_events(
    rows: &Vec<Vec<String>>,
    amounts: &Vec<Option<i32>>,
    event_index: &mut i32,
) -> (r: Result<Vec<Sexpr>, RowError>)
    requires
        amounts@.len() == rows@.len(),
        forall|j: int| 0 <= j < rows@.len() ==> #[trigger] rows@[j]@.len() >= 7,
    ensures
        match r {
            Ok(evs) => rows_events(rows_texts(rows@), amounts@, *old(event_index)) == Ok::<
                Seq<SpecSexpr>,
                RowError,
            >(views(evs@)) && *final(event_index) == *old(event_index) + rows@.len(),
            Err(e) => rows_events(rows_texts(rows@), amounts@, *old(event_index)) == Err::<
                Seq<SpecSexpr>,
                RowError,
            >(e) && *final(event_index) == *old(event_index),
        },
{
    let start = *event_index;
    let ghost texts = rows_texts(rows@);
    let mut out: Vec<Sexpr> = Vec::new();
    let mut j: usize = 0;
    assert(texts.take(0) =~= Seq::<Seq<Seq<char>>>::empty());
    assert(views(out@) =~= Seq::<SpecSexpr>::empty());
    while j < rows.len()
        invariant
            j <= rows@.len(),
            amounts@.len() == rows@.len(),
            forall|m: int| 0 <= m < rows@.len() ==> #[trigger] rows@[m]@.len() >= 7,
            texts == rows_texts(rows@),
            start == *old(event_index),
            *event_index == start + j,
            rows_events(texts.take(j as int), amounts@, start) == Ok::<Seq<SpecSexpr>, RowError>(
                views(out@),
            ),
        decreases rows@.len() - j,
    {
        let ghost t1 = texts.take(j + 1);
        assert(t1.drop_last() =~= texts.take(j as int));
        assert(t1.last() == cell_texts(rows@[j as int]@));
        assert(start + j == (start + t1.len() - 1) as i32);
        match try_row_to_sexpr(&rows[j], amounts[j], event_index) {
            Ok(e) => {
                let ghost before = out@;
                out.push(e);
                assert(views(out@) =~= views(before).push(e@));
                j = j + 1;
            },
            Err(err) => {
                proof {
                    assert(rows_events(t1, amounts@, start) == Err::<Seq<SpecSexpr>, RowError>(err));
                    lemma_rows_events_error(texts, amounts@, start, j + 1);
                    assert(texts.take(rows@.len() as int) =~= texts);
                }
                *event_index = start;
                return Err(err);
            },
        }
    }
    assert(texts.take(rows@.len() as int) =~= texts);
    Ok(out)
}

/// Journal rows are numbered in order: converting rows one after another
/// from the number `first` on gives the `j`-th row the number `first + j`,
/// and the numbers never pass `i32::MAX`.
pub proof fn law_rows_numbered_in_order(
    rows: Seq<Seq<Seq<char>>>,
    amounts: Seq<Option<i32>>,
    first: i32,
)
    requires
        rows_events(rows, amounts, first) is Ok,
    ensures
        rows_events(rows, amounts, first)->Ok_0.len() == rows.len(),
        first + rows.len() <= i32::MAX,
        forall|j: int|
            0 <= j < rows.len() ==> (#[trigger] rows_events(rows, amounts, first)->Ok_0[j])->List_0[1]
                == num((first + j) as i32),
    decreases rows.len(),
{
    if rows.len() > 0 {
        let init = rows.drop_last();
        law_rows_numbered_in_order(init, amounts, first);
        let evs = rows_events(init, amounts, first)->Ok_0;
        let all = rows_events(rows, amounts, first)->Ok_0;
        assert(all == evs.push(
            row_event(rows.last(), amounts[rows.len() - 1], (first + rows.len() - 1) as i32)->Ok_0,
        ));
        assert forall|j: int| 0 <= j < rows.len() implies (#[trigger] all[j])->List_0[1] == num(
            (first + j) as i32,
        ) by {
            if j < rows.len() - 1 {
                assert(all[j] == evs[j]);
            }
        }
    }
}

/// Calls of `row_to_sexpr` one after another number their events in call
/// order. Call `j` finds the counter at `counters[j]` and leaves it at
/// `counters[j + 1]`, and gives `events[j]`, as the contract of
/// `row_to_sexpr` says of each call. Then, where the first call finds the
/// counter at `k`, call `j` numbers its event `k + j`, the counter ends at
/// `k + n` after `n` calls, and the events are those that `rows_to_events`
/// gives from `k`.
pub proof fn law_row_calls_numbered_in_order(
    rows: Seq<Seq<Seq<char>>>,
    amounts: Seq<Option<i32>>,
    counters: Seq<i32>,
    events: Seq<SpecSexpr>,
)
    requires
        amounts.len() >= rows.len(),
        counters.len() == rows.len() + 1,
        events.len() == rows.len(),
        forall|j: int|
            0 <= j < rows.len() ==> row_event(rows[j], amounts[j], counters[j]) == Ok::<
                SpecSexpr,
                RowError,
            >(#[trigger] events[j]) && counters[j + 1] == counters[j] + 1,
    ensures
        forall|j: int| 0 <= j <= rows.len() ==> #[trigger] counters[j] == counters[0] + j,
        forall|j: int|
            0 <= j < rows.len() ==> (#[trigger] events[j])->List_0[1] == num(
                (counters[0] + j) as i32,
            ),
        rows_events(rows, amounts, counters[0]) == Ok::<Seq<SpecSexpr>, RowError>(events),
    decreases rows.len(),
{
    let n: int = rows.len() as int;
    if n > 0 {
        let last = n - 1;
        let ev = events[last];
        assert(row_event(rows[last], amounts[last], counters[last]) == Ok::<SpecSexpr, RowError>(ev)
            && counters[last + 1] == counters[last] + 1);
        let rows1 = rows.drop_last();
        let counters1 = counters.take(n);
        let events1 = events.take(last);
        assert forall|j: int| 0 <= j < rows1.len() implies row_event(
            rows1[j],
            amounts[j],
            counters1[j],
        ) == Ok::<SpecSexpr, RowError>(#[trigger] events1[j]) && counters1[j + 1] == counters1[j]
            + 1 by {
            assert(events1[j] == events[j]);
        }
        law_row_calls_numbered_in_order(rows1, amounts, counters1, events1);
        let k = counters[0];
        assert(counters[last] == k + last) by {
            assert(counters1[last] == counters[last]);
        }
        assert forall|j: int| 0 <= j <= n implies #[trigger] counters[j] == k + j by {
            if j < n {
                assert(counters1[j] == counters[j]);
            }
        }
        assert forall|j: int| 0 <= j < n implies (#[trigger] events[j])->List_0[1] == num(
            (k + j) as i32,
        ) by {
            if j < last {
                assert(events1[j] == events[j]);
                assert(counters1[j] == counters[j]);
            }
        }
        assert(rows_events(rows, amounts, k) == Ok::<Seq<SpecSexpr>, RowError>(events)) by {
            assert(rows.last() == rows[last]);
            assert(((k + n - 1) as i32) == counters[last]);
            assert(events1.push(ev) =~= events);
        }
    } else {
        assert(events =~= Seq::<SpecSexpr>::empty());
    }
}

/// The account of the entry `(ACCOUNT (money CENTS))`.
pub open spec fn entry_account(entry: SpecSexpr) -> i32 {
    entry->List_0[0]->Atom_0->Num_0
}

/// The money of the entry `(ACCOUNT (money CENTS))`.
pub open spec fn entry_money(entry: SpecSexpr) -> i32 {
    entry->List_0[1]->List_0[1]->Atom_0->Num_0
}

/// `entry` is written `(ACCOUNT (money CENTS))`.
pub open spec fn is_entry(entry: SpecSexpr) -> bool {
    entry == list(
        seq![num(entry_account(entry)), list(seq![sym("money"@), num(entry_money(entry))])],
    )
}

/// Every event made of a journal row balances. It is
/// `(event INDEX DATE "DESCRIPTION" (ENTRY ENTRY))`, numbered by the counter
/// it was made with, dated by the row's first cell, with two entries: the
/// row's amount on account 1130, and on the row's account the negation of
/// that money, whatever its sign, so the two add up to nothing.
pub proof fn law_row_event_balances(row: Seq<Seq<char>>, amount: Option<i32>, index: i32)
    requires
        row_event(row, amount, index) is Ok,
    ensures
        amount is Some,
        ({
            let e = row_event(row, amount, index)->Ok_0;
            let entries = e->List_0[4]->List_0;
            &&& e is List
            &&& e->List_0.len() == 5
            &&& e->List_0[0] == sym("event"@)
            &&& e->List_0[1] == num(index)
            &&& spec_date(row[0]) == Some(e->List_0[2])
            &&& e->List_0[3] == quoted(row_description(row[4], row[5], row[6]))
            &&& e->List_0[4] is List
            &&& entries.len() == 2
            &&& is_entry(entries[0])
            &&& is_entry(entries[1])
            &&& entry_account(entries[0]) == 1130
            &&& entry_money(entries[0]) == amount->0
            &&& row_account(row[3]) == Some(entry_account(entries[1]))
            &&& entry_money(entries[0]) + entry_money(entries[1]) == 0
        }),
{
}

/// The event that opens a fiscal year always has five items,
/// `(event 0 DATE "Tilikauden avaus" BALANCES)`, the last of them exactly the
/// balances handed in, whatever they are, the empty list too.
pub proof fn law_opening_event_shape(date: SpecSexpr, balances: SpecSexpr)
    ensures
        opening_event(date, balances) is List,
        opening_event(date, balances)->List_0.len() == 5,
        opening_event(date, balances)->List_0[0] == sym("event"@),
        opening_event(date, balances)->List_0[1] == num(0),
        opening_event(date, balances)->List_0[2] == date,
        opening_event(date, balances)->List_0[3] == quoted("Tilikauden avaus"@),
        opening_event(date, balances)->List_0[4] == balances,
{
}

proof fn lemma_blank_line_at(s: Seq<char>, i: int)
    requires
        0 <= i,
    ensures
        blank_line_at(s, i) >= 0 ==> {
            let b = blank_line_at(s, i);
            &&& i <= b && b + 1 < s.len()
            &&& s[b] == '\n' && s[b + 1] == '\n'
        },
        forall|k: int|
            i <= k && k + 1 < s.len() && (blank_line_at(s, i) < 0 || k < blank_line_at(s, i))
                ==> !(#[trigger] s[k] == '\n' && s[k + 1] == '\n'),
    decreases s.len() - i,
{
    if i + 1 < s.len() && !(s[i] == '\n' && s[i + 1] == '\n') {
        lemma_blank_line_at(s, i + 1);
    }
}

/// A chart file is split at its first blank line: a header without a blank
/// line that does not end in a line break, then a blank line, then the chart,
/// splits into that header and that chart, whatever the chart holds; a file
/// without a blank line does not split.
pub proof fn law_chart_file_splits_at_first_blank_line(h: Seq<char>, c: Seq<char>)
    ensures
        (forall|k: int| 0 <= k < h.len() - 1 ==> !(#[trigger] h[k] == '\n' && h[k + 1] == '\n'))
            && (h.len() == 0 || h.last() != '\n') ==> spec_split_chart_file(
            h + seq!['\n', '\n'] + c,
        ) == Some((h, c)),
        (forall|k: int| 0 <= k < h.len() - 1 ==> !(#[trigger] h[k] == '\n' && h[k + 1] == '\n'))
            ==> spec_split_chart_file(h) is None,
{
    let s = h + seq!['\n', '\n'] + c;
    let n = h.len() as int;
    lemma_blank_line_at(s, 0);
    lemma_blank_line_at(h, 0);
    if (forall|k: int| 0 <= k < h.len() - 1 ==> !(#[trigger] h[k] == '\n' && h[k + 1] == '\n'))
        && (h.len() == 0 || h.last() != '\n') {
        assert(s[n] == '\n' && s[n + 1] == '\n');
        let b = blank_line_at(s, 0);
        assert(b >= 0 && b <= n) by {
            if b < 0 || b > n {
                assert(!(s[n] == '\n' && s[n + 1] == '\n'));
            }
        }
        assert(b == n) by {
            if b < n {
                assert(s[b] == h[b]);
                if b + 1 < n {
                    assert(s[b + 1] == h[b + 1]);
                    assert(!(h[b] == '\n' && h[b + 1] == '\n'));
                } else {
                    assert(h.last() == h[b]);
                }
            }
        }
        assert(s.take(n) =~= h);
        assert(s.skip(n + 2) =~= c);
    }
    if forall|k: int| 0 <= k < h.len() - 1 ==> !(#[trigger] h[k] == '\n' && h[k + 1] == '\n') {
        let b = blank_line_at(h, 0);
        if b >= 0 {
            assert(!(h[b] == '\n' && h[b + 1] == '\n'));
        }
    }
}

/// A header is read line by line: its first three lines are the title, the
/// first day and the last day, whatever follows them; a header of fewer than
/// three lines gives none.
pub proof fn law_header_lines(t: Seq<char>, a: Seq<char>, b: Seq<char>, rest: Seq<char>)
    requires
        !t.contains('\n'),
        !a.contains('\n'),
        !b.contains('\n'),
    ensures
        spec_header_fields(t + seq!['\n'] + a + seq!['\n'] + b) == Some((t, a, b)),
        spec_header_fields(t + seq!['\n'] + a + seq!['\n'] + b + seq!['\n'] + rest) == Some(
            (t, a, b),
        ),
        spec_header_fields(t) is None,
        spec_header_fields(t + seq!['\n'] + a) is None,
{
    let h3 = t + seq!['\n'] + a + seq!['\n'] + b;
    assert(h3 =~= t + seq!['\n'] + (a + seq!['\n'] + b));
    lemma_split_on_part(t, a + seq!['\n'] + b, '\n');
    lemma_split_on_part(a, b, '\n');
    lemma_split_on_whole(b, '\n');
    assert(split_on(h3, '\n') =~= seq![t, a, b]);
    let h4 = t + seq!['\n'] + a + seq!['\n'] + b + seq!['\n'] + rest;
    assert(h4 =~= t + seq!['\n'] + (a + seq!['\n'] + (b + seq!['\n'] + rest)));
    assert(a + seq!['\n'] + (b + seq!['\n'] + rest) =~= a + seq!['\n'] + b + seq!['\n'] + rest);
    lemma_split_on_part(t, a + seq!['\n'] + (b + seq!['\n'] + rest), '\n');
    lemma_split_on_part(a, b + seq!['\n'] + rest, '\n');
    lemma_split_on_part(b, rest, '\n');
    let l4 = split_on(h4, '\n');
    assert(l4 =~= seq![t, a, b] + split_on(rest, '\n'));
    assert(l4[0] == t && l4[1] == a && l4[2] == b);
    lemma_split_on_whole(t, '\n');
    lemma_split_on_part(t, a, '\n');
    lemma_split_on_whole(a, '\n');
    assert(split_on(t + seq!['\n'] + a, '\n') =~= seq![t, a]);
}

/// Escaping line breaks leaves none, keeps a text without them as it is, and
/// escapes each part of a text by itself: the escape of `s + u` is the
/// escape of `s` followed by that of `u`.
pub proof fn law_escape_newlines(s: Seq<char>, u: Seq<char>)
    ensures
        !escape_newlines(s).contains('\n'),
        !s.contains('\n') ==> escape_newlines(s) == s,
        escape_newlines(s + u) == escape_newlines(s) + escape_newlines(u),
    decreases s.len() + u.len(),
{
    if u.len() > 0 {
        law_escape_newlines(s, u.drop_last());
        assert((s + u).drop_last() =~= s + u.drop_last());
        assert((s + u).last() == u.last());
        assert(escape_newlines(s + u) =~= escape_newlines(s) + escape_newlines(u));
    } else {
        assert(s + u =~= s);
        assert(escape_newlines(u) =~= Seq::<char>::empty());
        assert(escape_newlines(s) + escape_newlines(u) =~= escape_newlines(s));
        if s.len() > 0 {
            law_escape_newlines(s.drop_last(), u);
            let e = escape_newlines(s.drop_last());
            let tail = if s.last() == '\n' {
                seq!['\\', 'n']
            } else {
                seq![s.last()]
            };
            assert(escape_newlines(s) == e + tail);
            assert forall|i: int| 0 <= i < (e + tail).len() implies (e + tail)[i] != '\n' by {
                if i < e.len() {
                    assert((e + tail)[i] == e[i]);
                    assert(!e.contains('\n'));
                    if e[i] == '\n' {
                        assert(e.contains('\n'));
                    }
                }
            }
            if !s.contains('\n') {
                assert(!s.drop_last().contains('\n')) by {
                    if s.drop_last().contains('\n') {
                        let i = choose|i: int| 0 <= i < s.drop_last().len() && s.drop_last()[i] == '\n';
                        assert(s[i] == '\n');
                    }
                }
                assert(s.last() != '\n') by {
                    assert(s[s.len() - 1] == s.last());
                }
                assert(e + tail =~= s);
            }
        } else {
            assert(escape_newlines(s) =~= Seq::<char>::empty());
        }
    }
}

/// The account of a journal row is the number that its account cell starts
/// with, four digits long, or 3210 for service fees; a cell shorter than four
/// characters names no account, unless it names service fees.
pub proof fn law_row_account_reads_number(c3: Seq<char>)
    ensures
        row_account("Palvelumaksut"@) == Some(3210i32),
        c3.len() >= 4 && is_digit(c3[0]) && is_digit(c3[1]) && is_digit(c3[2]) && is_digit(c3[3])
            ==> row_account(c3) == Some(
            (digit_value(c3[0]) * 1000 + digit_value(c3[1]) * 100 + digit_value(c3[2]) * 10
                + digit_value(c3[3])) as i32,
        ),
        c3.len() < 4 && c3 != "Palvelumaksut"@ ==> row_account(c3) is None,
{
    if c3.len() >= 4 && is_digit(c3[0]) && is_digit(c3[1]) && is_digit(c3[2]) && is_digit(c3[3]) {
        let w = c3.take(4);
        assert(c3 != "Palvelumaksut"@) by {
            reveal_strlit("Palvelumaksut");
            assert("Palvelumaksut"@[0] == 'P');
        }
        let w1 = seq![c3[0]];
        let w2 = seq![c3[0], c3[1]];
        let w3 = seq![c3[0], c3[1], c3[2]];
        assert(w1.drop_last() =~= Seq::<char>::empty());
        assert(digits_value(Seq::<char>::empty()) == 0);
        assert(w1.last() == c3[0]);
        assert(digits_value(w1) == digit_value(c3[0]));
        assert(w2.drop_last() =~= w1);
        assert(w2.last() == c3[1]);
        assert(digits_value(w2) == digit_value(c3[0]) * 10 + digit_value(c3[1]));
        assert(w3.drop_last() =~= w2);
        assert(w3.last() == c3[2]);
        assert(digits_value(w3) == digit_value(c3[0]) * 100 + digit_value(c3[1]) * 10
            + digit_value(c3[2]));
        assert(w.drop_last() =~= w3);
        assert(w.last() == c3[3]);
        assert(all_digits(w));
        assert(digits_value(w) == digit_value(c3[0]) * 1000 + digit_value(c3[1]) * 100
            + digit_value(c3[2]) * 10 + digit_value(c3[3]));
    }
}

/// A Tappio document is `(identity "Tappio" version "versio 0.22" finances
/// YEAR)`, its fiscal year `YEAR` being `(fiscal-year "TITLE" START END
/// (account-map ACCOUNTS...) (EVENTS...))`: the accounts of the map handed
/// in, every one in order, and exactly the events handed in.
pub proof fn law_document_shape(
    title: Seq<char>,
    start: SpecSexpr,
    end: SpecSexpr,
    account_map: SpecSexpr,
    events: Seq<SpecSexpr>,
)
    requires
        account_map is List,
    ensures
        ({
            let d = document(title, start, end, account_map, events);
            let year = d->List_0[5];
            let map = year->List_0[4]->List_0;
            &&& d is List
            &&& d->List_0.len() == 6
            &&& d->List_0[0] == sym("identity"@)
            &&& d->List_0[1] == quoted("Tappio"@)
            &&& d->List_0[2] == sym("version"@)
            &&& d->List_0[3] == quoted("versio 0.22"@)
            &&& d->List_0[4] == sym("finances"@)
            &&& year is List
            &&& year->List_0.len() == 6
            &&& year->List_0[0] == sym("fiscal-year"@)
            &&& year->List_0[1] == quoted(title)
            &&& year->List_0[2] == start
            &&& year->List_0[3] == end
            &&& year->List_0[4] is List
            &&& map.len() == account_map->List_0.len() + 1
            &&& map[0] == sym("account-map"@)
            &&& forall|i: int|
                0 <= i < account_map->List_0.len() ==> #[trigger] map[i + 1]
                    == account_map->List_0[i]
            &&& year->List_0[5] == list(events)
        }),
{
}

} // verus!
