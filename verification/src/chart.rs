//! Charts of accounts in the indented text format.
//!
//! A chart holds one account per line. A line is its indentation (white
//! space), the account's number (`-` and digits), one separating character,
//! the name, and perhaps an opening balance: a last word that ends in `€` or
//! `$`. An account's subaccounts follow it on lines indented further.
//!
//! The number of a balance is written with `.` or `,` as its decimal
//! separator; what it is in cents is computed outside this library (it goes
//! through floating point), and handed in by line.
use vstd::prelude::*;

use crate::reader::{lemma_scan, scan};
use crate::sexpr::{lemma_list_view, list, num, quoted, sym, views, Sexpr, SpecAtom, SpecSexpr, A};
use crate::text::{
    chars_of, is_digit, is_whitespace, parse_i32, push_char, spec_is_whitespace, spec_parse_i32,
    string_of,
};

verus! {

/// An account of a chart, with its subaccounts.
#[derive(Debug)]
pub struct Account {
    pub number: i32,
    pub name: String,
    pub children: Vec<Account>,
}

/// The model of an account.
pub struct AccountV {
    pub number: i32,
    pub name: Seq<char>,
    pub children: Seq<AccountV>,
}

pub open spec fn account_view(a: Account) -> AccountV
    decreases a,
{
    AccountV {
        number: a.number,
        name: a.name@,
        children: Seq::new(
            a.children@.len(),
            |i: int|
                if 0 <= i < a.children@.len() {
                    account_view(a.children@[i])
                } else {
                    AccountV { number: 0, name: Seq::empty(), children: Seq::empty() }
                },
        ),
    }
}

impl View for Account {
    type V = AccountV;

    open spec fn view(&self) -> AccountV {
        account_view(*self)
    }
}

/// The models of a sequence of accounts.
pub open spec fn account_views(v: Seq<Account>) -> Seq<AccountV> {
    Seq::new(v.len(), |i: int| v[i]@)
}

pub proof fn lemma_account_view(a: Account)
    ensures
        a@.children == account_views(a.children@),
        a@.number == a.number,
        a@.name == a.name@,
{
    assert(a@.children =~= account_views(a.children@));
}

/// How an account is written in a Tappio file:
/// `(account NUMBER "NAME" (SUBACCOUNTS...))`.
pub open spec fn account_sexpr(a: AccountV) -> SpecSexpr
    decreases a,
{
    list(
        seq![
            sym("account"@),
            num(a.number),
            quoted(a.name),
            list(
                Seq::new(
                    a.children.len(),
                    |i: int|
                        if 0 <= i < a.children.len() {
                            account_sexpr(a.children[i])
                        } else {
                            list(Seq::empty())
                        },
                ),
            ),
        ],
    )
}

/// The s-expressions of a sequence of accounts.
pub open spec fn accounts_sexprs(s: Seq<AccountV>) -> Seq<SpecSexpr> {
    Seq::new(s.len(), |i: int| account_sexpr(s[i]))
}

/// An account with no subaccounts.
pub fn init_account(number: i32, name: String) -> (r: Account)
    ensures
        r@ == (AccountV { number, name: name@, children: Seq::empty() }),
{
    let r = Account { number, name, children: Vec::new() };
    proof {
        lemma_account_view(r);
    }
    assert(r@.children =~= Seq::<AccountV>::empty());
    r
}

impl Account {
    /// Adds `v` as the last subaccount.
    pub fn push_child(&mut self, v: Account)
        ensures
            final(self)@ == (AccountV { children: old(self)@.children.push(v@), ..old(self)@ }),
    {
        proof {
            lemma_account_view(*self);
        }
        let ghost before = self.children@;
        self.children.push(v);
        proof {
            lemma_account_view(*self);
        }
        assert(account_views(self.children@) =~= account_views(before).push(v@));
    }

    /// Moves the accounts of `v` to the end of the subaccounts, leaving `v` empty.
    pub fn append_children(&mut self, v: &mut Vec<Account>)
        ensures
            final(self)@ == (AccountV {
                children: old(self)@.children + account_views(old(v)@),
                ..old(self)@
            }),
            final(v)@.len() == 0,
    {
        proof {
            lemma_account_view(*self);
        }
        let ghost before = self.children@;
        let ghost moved = v@;
        self.children.append(v);
        proof {
            lemma_account_view(*self);
        }
        assert(account_views(self.children@) =~= account_views(before) + account_views(moved));
    }

    /// The s-expression of this account and its subaccounts.
    pub fn to_sexpr(&mut self) -> (r: Sexpr)
        ensures
            r@ == account_sexpr(old(self)@),
            *final(self) == *old(self),
    {
        self.sexpr_of()
    }

    fn sexpr_of(&self) -> (r: Sexpr)
        ensures
            r@ == account_sexpr(self@),
        decreases self,
    {
        proof {
            lemma_account_view(*self);
        }
        let mut kids: Vec<Sexpr> = Vec::new();
        let mut i: usize = 0;
        while i < self.children.len()
            invariant
                i <= self.children@.len(),
                kids@.len() == i,
                forall|k: int| 0 <= k < i ==> #[trigger] kids@[k]@ == account_sexpr(
                    self.children@[k]@,
                ),
            decreases self.children@.len() - i,
        {
            let e = self.children[i].sexpr_of();
            kids.push(e);
            i = i + 1;
        }
        proof {
            lemma_list_view(kids);
            assert(views(kids@) =~= account_sexpr(self@)->List_0[3]->List_0);
        }
        let mut fields: Vec<Sexpr> = Vec::new();
        fields.push(Sexpr::Atom(A::Symbol(String::from_str("account"))));
        fields.push(Sexpr::Atom(A::Number(self.number)));
        fields.push(Sexpr::Atom(A::String(self.name.clone())));
        fields.push(Sexpr::List(kids));
        proof {
            lemma_list_view(fields);
            assert(views(fields@) =~= account_sexpr(self@)->List_0);
        }
        Sexpr::List(fields)
    }
}

/// The s-expressions of the accounts `v`, as a list.
pub fn account_vec_to_sexpr(v: &mut Vec<Account>) -> (r: Sexpr)
    ensures
        r@ == list(accounts_sexprs(account_views(old(v)@))),
        final(v)@ == old(v)@,
{
    let mut out: Vec<Sexpr> = Vec::new();
    let mut i: usize = 0;
    while i < v.len()
        invariant
            i <= v@.len(),
            out@.len() == i,
            forall|k: int| 0 <= k < i ==> #[trigger] out@[k]@ == account_sexpr(v@[k]@),
        decreases v@.len() - i,
    {
        let e = v[i].sexpr_of();
        out.push(e);
        i = i + 1;
    }
    proof {
        lemma_list_view(out);
        assert(views(out@) =~= accounts_sexprs(account_views(v@)));
    }
    Sexpr::List(out)
}


/// Why a chart could not be read.
#[derive(Clone, Copy, Debug, PartialEq, Eq)]
pub enum ChartError {
    /// The chart has no lines.
    NoLines,
    /// A line holds nothing but white space.
    BlankLine,
    /// An account number is not an `i32`.
    InvalidAccountNumber,
    /// A line has nothing after its account number.
    MissingName,
    /// A balance is not separated from the name by a space.
    MissingBalanceSeparator,
    /// A balance is no number.
    InvalidBalance,
    /// A line is indented less than the first line of the chart.
    IndentBelowFirst,
}

/// The index of the first line break from `i` on, or the end.
pub open spec fn newline_at(s: Seq<char>, i: int) -> int {
    scan(s, i, |c: char| c == '\n')
}

/// The lines of `s`, as `str::lines` gives them: split at each `\n`, a `\r`
/// before it dropped, and no line after a final `\n`.
pub open spec fn split_lines(s: Seq<char>) -> Seq<Seq<char>>
    decreases s.len(),
{
    if s.len() == 0 {
        Seq::empty()
    } else {
        let j = newline_at(s, 0);
        if j >= s.len() {
            seq![s]
        } else {
            let line = s.take(j);
            let line = if line.len() > 0 && line.last() == '\r' {
                line.drop_last()
            } else {
                line
            };
            proof {
                lemma_scan(s, 0, |c: char| c == '\n');
            }
            seq![line] + split_lines(s.skip(j + 1))
        }
    }
}

/// `t` without its trailing white space, as `str::trim_end` gives it.
pub open spec fn trim_end(t: Seq<char>) -> Seq<char>
    decreases t.len(),
{
    if t.len() > 0 && spec_is_whitespace(t.last()) {
        trim_end(t.drop_last())
    } else {
        t
    }
}

/// The number of white space characters that `t` starts with.
pub open spec fn indent_end(t: Seq<char>) -> int {
    scan(t, 0, |c: char| !spec_is_whitespace(c))
}

/// Where the account number that starts at `i` ends.
pub open spec fn number_end(t: Seq<char>, i: int) -> int {
    scan(t, i, |c: char| !(c == '-' || is_digit(c)))
}

/// The index of the last space in `t[lo..hi]`, or -1.
pub open spec fn last_space(t: Seq<char>, lo: int, hi: int) -> int
    decreases hi - lo,
{
    if hi <= lo {
        -1
    } else if t[hi - 1] == ' ' {
        hi - 1
    } else {
        last_space(t, lo, hi - 1)
    }
}

/// `s` with each `,` written as `.`.
pub open spec fn decimal_point(s: Seq<char>) -> Seq<char> {
    s.map_values(|c: char| if c == ',' { '.' } else { c })
}

/// What one line of a chart says.
pub struct LineFields {
    pub indent: nat,
    pub number: i32,
    pub name: Seq<char>,
    /// The number of the opening balance, with `.` as its decimal point.
    pub balance: Option<Seq<char>>,
}

/// What the line `line` says, or why it says nothing.
pub open spec fn line_fields(line: Seq<char>) -> Result<LineFields, ChartError> {
    let t = trim_end(line);
    if t.len() == 0 {
        Err(ChartError::BlankLine)
    } else {
        let ind = indent_end(t);
        let ne = number_end(t, ind);
        match spec_parse_i32(t.subrange(ind, ne)) {
            None => Err(ChartError::InvalidAccountNumber),
            Some(number) => {
                // One character after the number separates it from the name.
                let rs = if ne < t.len() {
                    ne + 1
                } else {
                    t.len() as int
                };
                if rs >= t.len() {
                    Err(ChartError::MissingName)
                } else if t.last() == '€' || t.last() == '$' {
                    let sp = last_space(t, rs, t.len() as int);
                    if sp < 0 {
                        Err(ChartError::MissingBalanceSeparator)
                    } else {
                        Ok(
                            LineFields {
                                indent: ind as nat,
                                number,
                                name: t.subrange(rs, sp),
                                balance: Some(decimal_point(t.subrange(sp + 1, t.len() - 1))),
                            },
                        )
                    }
                } else {
                    Ok(
                        LineFields {
                            indent: ind as nat,
                            number,
                            name: t.subrange(rs, t.len() as int),
                            balance: None,
                        },
                    )
                }
            },
        }
    }
}

/// One line of a chart, read.
pub struct ChartLine {
    pub indent: usize,
    pub number: i32,
    pub name: String,
    pub balance: Option<String>,
}

/// `r` holds what `f` says.
pub open spec fn line_holds(r: ChartLine, f: LineFields) -> bool {
    &&& r.indent == f.indent
    &&& r.number == f.number
    &&& r.name@ == f.name
    &&& match (r.balance, f.balance) {
        (Some(b), Some(c)) => b@ == c,
        (None, None) => true,
        _ => false,
    }
}

pub proof fn lemma_scan_skip(s: Seq<char>, p: int, i: int, stop: spec_fn(char) -> bool)
    requires
        0 <= p <= s.len(),
        0 <= i,
    ensures
        scan(s.skip(p), i, stop) == scan(s, p + i, stop) - p,
    decreases s.len() - p - i,
{
    if p + i < s.len() && !stop(s[p + i]) {
        lemma_scan_skip(s, p, i + 1, stop);
    }
}

/// Copies `cs[lo..hi]`.
fn sub_chars(cs: &Vec<char>, lo: usize, hi: usize) -> (r: Vec<char>)
    requires
        lo <= hi <= cs@.len(),
    ensures
        r@ == cs@.subrange(lo as int, hi as int),
{
    let mut r: Vec<char> = Vec::new();
    let mut i = lo;
    while i < hi
        invariant
            lo <= i <= hi <= cs@.len(),
            r@ == cs@.subrange(lo as int, i as int),
        decreases hi - i,
    {
        r.push(cs[i]);
        i = i + 1;
        assert(r@ =~= cs@.subrange(lo as int, i as int));
    }
    r
}

/// The lines of `cs`, each as its characters.
fn line_chars(cs: &Vec<char>) -> (r: Vec<Vec<char>>)
    ensures
        r@.len() == split_lines(cs@).len(),
        forall|k: int| 0 <= k < r@.len() ==> #[trigger] r@[k]@ == split_lines(cs@)[k],
{
    let n = cs.len();
    let mut r: Vec<Vec<char>> = Vec::new();
    let ghost mut done: Seq<Seq<char>> = Seq::empty();
    let mut pos: usize = 0;
    assert(cs@.skip(0) =~= cs@);
    assert(done + split_lines(cs@) =~= split_lines(cs@));
    while pos < n
        invariant
            n == cs@.len(),
            pos <= n,
            r@.len() == done.len(),
            forall|k: int| 0 <= k < r@.len() ==> #[trigger] r@[k]@ == done[k],
            split_lines(cs@) == done + split_lines(cs@.skip(pos as int)),
        decreases n - pos,
    {
        let ghost rest = cs@.skip(pos as int);
        let mut j = pos;
        while j < n && cs[j] != '\n'
            invariant
                pos <= j <= n,
                n == cs@.len(),
                newline_at(cs@, pos as int) == newline_at(cs@, j as int),
            decreases n - j,
        {
            j = j + 1;
        }
        proof {
            lemma_scan_skip(cs@, pos as int, 0, |c: char| c == '\n');
            lemma_scan(cs@, pos as int, |c: char| c == '\n');
        }
        let mut end = j;
        if j < n && end > pos && cs[end - 1] == '\r' {
            end = end - 1;
        }
        let line = sub_chars(cs, pos, end);
        proof {
            let jj = newline_at(rest, 0);
            assert(jj == j - pos);
            if j < n {
                let l0 = rest.take(jj);
                assert(l0 =~= cs@.subrange(pos as int, j as int));
                if l0.len() > 0 && l0.last() == '\r' {
                    assert(line@ =~= l0.drop_last());
                } else {
                    assert(line@ =~= l0);
                }
                assert(rest.skip(jj + 1) =~= cs@.skip(j + 1));
            } else {
                assert(line@ =~= rest);
            }
        }
        r.push(line);
        proof {
            done = done.push(line@);
            if j < n {
                assert(split_lines(rest) == seq![line@] + split_lines(cs@.skip(j + 1)));
            } else {
                assert(split_lines(rest) == seq![line@]);
                assert(cs@.skip(n as int) =~= Seq::<char>::empty());
            }
        }
        pos = if j < n {
            j + 1
        } else {
            n
        };
        assert(split_lines(cs@) =~= done + split_lines(cs@.skip(pos as int)));
    }
    assert(cs@.skip(n as int) =~= Seq::<char>::empty());
    assert(done =~= split_lines(cs@));
    r
}

/// The lines of the chart `tk`.
pub fn chart_lines(tk: &str) -> (r: Vec<String>)
    ensures
        r@.len() == split_lines(tk@).len(),
        forall|k: int| 0 <= k < r@.len() ==> #[trigger] r@[k]@ == split_lines(tk@)[k],
{
    let cs = chars_of(tk);
    let lines = line_chars(&cs);
    let mut r: Vec<String> = Vec::new();
    let mut k: usize = 0;
    while k < lines.len()
        invariant
            k <= lines@.len(),
            cs@ == tk@,
            lines@.len() == split_lines(cs@).len(),
            forall|m: int| 0 <= m < lines@.len() ==> #[trigger] lines@[m]@ == split_lines(cs@)[m],
            r@.len() == k,
            forall|m: int| 0 <= m < k ==> #[trigger] r@[m]@ == split_lines(cs@)[m],
        decreases lines@.len() - k,
    {
        let s = string_of(&lines[k], 0, lines[k].len());
        assert(lines@[k as int]@.subrange(0, lines@[k as int]@.len() as int) =~= lines@[k as int]@);
        r.push(s);
        k = k + 1;
    }
    r
}

/// Reads one line of a chart.
pub fn read_line(line: &Vec<char>) -> (r: Result<ChartLine, ChartError>)
    ensures
        match r {
            Ok(c) => line_fields(line@) matches Ok(f) && line_holds(c, f),
            Err(e) => line_fields(line@) == Err::<LineFields, ChartError>(e),
        },
{
    // Trailing white space.
    let mut t_end = line.len();
    assert(line@.take(t_end as int) =~= line@);
    while t_end > 0 && is_whitespace(line[t_end - 1])
        invariant
            t_end <= line@.len(),
            trim_end(line@) == trim_end(line@.take(t_end as int)),
        decreases t_end,
    {
        assert(line@.take(t_end as int).drop_last() =~= line@.take(t_end - 1));
        t_end = t_end - 1;
    }
    let ghost t = line@.take(t_end as int);
    assert(trim_end(line@) == t);
    if t_end == 0 {
        return Err(ChartError::BlankLine);
    }
    assert(!spec_is_whitespace(t.last()));
    // Indentation.
    let mut ind: usize = 0;
    while is_whitespace(line[ind])
        invariant
            ind < t_end <= line@.len(),
            t == line@.take(t_end as int),
            !spec_is_whitespace(t.last()),
            indent_end(t) == scan(t, ind as int, |c: char| !spec_is_whitespace(c)),
        decreases t_end - ind,
    {
        ind = ind + 1;
        if ind == t_end {
            assert(t[t_end - 1] == t.last());
        }
    }
    assert(indent_end(t) == ind);
    // The account number.
    let mut ne = ind;
    while ne < t_end && (line[ne] == '-' || ('0' <= line[ne] && line[ne] <= '9'))
        invariant
            ind <= ne <= t_end <= line@.len(),
            t == line@.take(t_end as int),
            number_end(t, ind as int) == number_end(t, ne as int),
        decreases t_end - ne,
    {
        ne = ne + 1;
    }
    assert(number_end(t, ind as int) == ne);
    assert(line@.subrange(ind as int, ne as int) =~= t.subrange(ind as int, ne as int));
    let number = match parse_i32(line, ind, ne) {
        Some(v) => v,
        None => {
            return Err(ChartError::InvalidAccountNumber);
        },
    };
    let rs = if ne < t_end {
        ne + 1
    } else {
        t_end
    };
    if rs >= t_end {
        return Err(ChartError::MissingName);
    }
    let last = line[t_end - 1];
    assert(last == t.last());
    if last == '€' || last == '$' {
        let mut hi = t_end;
        while hi > rs && line[hi - 1] != ' '
            invariant
                rs <= hi <= t_end <= line@.len(),
                t == line@.take(t_end as int),
                last_space(t, rs as int, t_end as int) == last_space(t, rs as int, hi as int),
            decreases hi,
        {
            hi = hi - 1;
        }
        if hi == rs {
            return Err(ChartError::MissingBalanceSeparator);
        }
        let sp = hi - 1;
        assert(last_space(t, rs as int, t_end as int) == sp);
        let name = string_of(line, rs, sp);
        let mut balance = String::new();
        let mut k = sp + 1;
        while k < t_end - 1
            invariant
                sp + 1 <= k <= t_end - 1,
                t_end <= line@.len(),
                t == line@.take(t_end as int),
                balance@ == decimal_point(t.subrange(sp + 1, k as int)),
            decreases t_end - 1 - k,
        {
            let c = line[k];
            push_char(&mut balance, if c == ',' { '.' } else { c });
            k = k + 1;
            assert(balance@ =~= decimal_point(t.subrange(sp + 1, k as int)));
        }
        assert(name@ =~= t.subrange(rs as int, sp as int));
        Ok(ChartLine { indent: ind, number, name, balance: Some(balance) })
    } else {
        let name = string_of(line, rs, t_end);
        assert(name@ =~= t.subrange(rs as int, t_end as int));
        Ok(ChartLine { indent: ind, number, name, balance: None })
    }
}

/// The number of the opening balance on the line `line`, with `.` as its
/// decimal point, where the line has one and is well formed up to it.
pub fn balance_text(line: &str) -> (r: Option<String>)
    ensures
        match r {
            Some(b) => line_fields(line@) matches Ok(f) && f.balance == Some(b@),
            None => !(line_fields(line@) matches Ok(f) && f.balance is Some),
        },
{
    let cs = chars_of(line);
    match read_line(&cs) {
        Ok(c) => c.balance,
        Err(_) => None,
    }
}


/// `a` with `more` added after its subaccounts.
pub open spec fn with_children(a: AccountV, more: Seq<AccountV>) -> AccountV {
    AccountV { children: a.children + more, ..a }
}

/// Closes the innermost level: its accounts become subaccounts of the last
/// account of the level around it.
pub open spec fn close_top(levels: Seq<(int, Seq<AccountV>)>) -> Seq<(int, Seq<AccountV>)> {
    let top = levels.last();
    let rest = levels.drop_last();
    let p = rest.last();
    rest.update(rest.len() - 1, (p.0, p.1.update(p.1.len() - 1, with_children(p.1.last(), top.1))))
}

/// Closes the levels indented more than `indent`, then gives the innermost
/// level left the indentation `indent`; nothing where no level would be left.
pub open spec fn close_to(levels: Seq<(int, Seq<AccountV>)>, indent: int) -> Option<
    Seq<(int, Seq<AccountV>)>,
>
    decreases levels.len(),
{
    if levels.len() == 0 {
        None
    } else if levels.last().0 > indent {
        if levels.len() == 1 {
            None
        } else {
            close_to(close_top(levels), indent)
        }
    } else {
        Some(levels.update(levels.len() - 1, (indent, levels.last().1)))
    }
}

/// `levels` with `a` added to the innermost level.
pub open spec fn add_to_top(levels: Seq<(int, Seq<AccountV>)>, a: AccountV) -> Seq<
    (int, Seq<AccountV>),
> {
    levels.update(levels.len() - 1, (levels.last().0, levels.last().1.push(a)))
}

/// All accounts of all levels, outermost level first.
pub open spec fn flat(levels: Seq<(int, Seq<AccountV>)>) -> Seq<AccountV>
    decreases levels.len(),
{
    if levels.len() == 0 {
        Seq::empty()
    } else {
        flat(levels.drop_last()) + levels.last().1
    }
}

/// A chart half read: the open levels, and the opening balances so far.
pub struct ChartState {
    pub levels: Seq<(int, Seq<AccountV>)>,
    pub events: Seq<SpecSexpr>,
}

/// The opening balance of `cents` cents on the account `number`:
/// `(NUMBER (money CENTS))`.
pub open spec fn balance_event(number: i32, cents: i32) -> SpecSexpr {
    list(seq![num(number), list(seq![sym("money"@), num(cents)])])
}

/// Reading the lines from `k` on, from the state `st`; `cents[k]` is the
/// balance of line `k` in cents, where it has one that is a number.
///
/// A line indented less than the innermost level first closes the levels
/// deeper than it. Each line with an opening balance records it once.
pub open spec fn read_lines(
    lines: Seq<Seq<char>>,
    cents: Seq<Option<i32>>,
    k: int,
    st: ChartState,
) -> Result<ChartState, ChartError>
    decreases lines.len() - k,
{
    if k < 0 || k >= lines.len() {
        Ok(st)
    } else {
        match line_fields(lines[k]) {
            Err(e) => Err(e),
            Ok(f) => {
                if f.balance is Some && cents[k] is None {
                    Err(ChartError::InvalidBalance)
                } else {
                    let ev = balance_event(f.number, cents[k]->0);
                    let events = if f.balance is Some {
                        st.events.push(ev)
                    } else {
                        st.events
                    };
                    let a = AccountV { number: f.number, name: f.name, children: Seq::empty() };
                    let ind = f.indent as int;
                    let levels = st.levels;
                    if levels.len() == 0 {
                        read_lines(
                            lines,
                            cents,
                            k + 1,
                            ChartState { levels: seq![(ind, seq![a])], events },
                        )
                    } else if levels.last().0 == ind {
                        read_lines(
                            lines,
                            cents,
                            k + 1,
                            ChartState { levels: add_to_top(levels, a), events },
                        )
                    } else if levels.last().0 < ind {
                        read_lines(
                            lines,
                            cents,
                            k + 1,
                            ChartState { levels: levels.push((ind, seq![a])), events },
                        )
                    } else {
                        match close_to(levels, ind) {
                            None => Err(ChartError::IndentBelowFirst),
                            Some(closed) => read_lines(
                                lines,
                                cents,
                                k + 1,
                                ChartState { levels: add_to_top(closed, a), events },
                            ),
                        }
                    }
                }
            },
        }
    }
}

/// What reading the chart `tk` gives: its accounts, as a forest, and its
/// opening balances.
pub open spec fn spec_chart(tk: Seq<char>, cents: Seq<Option<i32>>) -> Result<
    (Seq<AccountV>, Seq<SpecSexpr>),
    ChartError,
> {
    match read_lines(
        split_lines(tk),
        cents,
        0,
        ChartState { levels: Seq::empty(), events: Seq::empty() },
    ) {
        Err(e) => Err(e),
        Ok(st) => if st.levels.len() == 0 {
            Err(ChartError::NoLines)
        } else {
            match close_to(st.levels, 0) {
                None => Err(ChartError::IndentBelowFirst),
                Some(closed) => Ok((flat(closed), st.events)),
            }
        },
    }
}

/// What reading the chart `tk` gives as s-expressions: its accounts, each as
/// `(account NUMBER "NAME" (SUBACCOUNTS...))`, and its opening balances.
pub open spec fn spec_parse_tk(tk: Seq<char>, cents: Seq<Option<i32>>) -> Result<
    (SpecSexpr, SpecSexpr),
    ChartError,
> {
    match spec_chart(tk, cents) {
        Err(e) => Err(e),
        Ok((accounts, events)) => Ok((list(accounts_sexprs(accounts)), list(events))),
    }
}

/// The exec stacks hold the levels `levels`, each of them not empty.
pub open spec fn levels_held(
    indents: Seq<usize>,
    accounts: Seq<Vec<Account>>,
    levels: Seq<(int, Seq<AccountV>)>,
) -> bool {
    &&& indents.len() == levels.len()
    &&& accounts.len() == levels.len()
    &&& forall|k: int|
        0 <= k < levels.len() ==> #[trigger] levels[k] == (
            indents[k] as int,
            account_views(accounts[k]@),
        )
    &&& forall|k: int| 0 <= k < levels.len() ==> #[trigger] levels[k].1.len() > 0
}

fn close_top_exec(
    indents: &mut Vec<usize>,
    accounts: &mut Vec<Vec<Account>>,
    Ghost(levels): Ghost<Seq<(int, Seq<AccountV>)>>,
)
    requires
        levels_held(old(indents)@, old(accounts)@, levels),
        levels.len() >= 2,
    ensures
        levels_held(final(indents)@, final(accounts)@, close_top(levels)),
{
    let ghost n = levels.len();
    indents.pop();
    let mut top = accounts.pop().unwrap();
    let mut parent = accounts.pop().unwrap();
    assert(levels[n - 2].1.len() > 0);
    let ghost old_parent = parent@;
    let mut acc = parent.pop().unwrap();
    assert(acc@ == levels[n - 2].1.last());
    acc.append_children(&mut top);
    parent.push(acc);
    assert(account_views(parent@) =~= levels[n - 2].1.update(
        levels[n - 2].1.len() - 1,
        with_children(levels[n - 2].1.last(), levels[n - 1].1),
    ));
    accounts.push(parent);
    let ghost c = close_top(levels);
    assert(levels_held(indents@, accounts@, c)) by {
        assert forall|k: int| 0 <= k < c.len() implies #[trigger] c[k] == (
            indents@[k] as int,
            account_views(accounts@[k]@),
        ) by {
            if k < n - 2 {
                assert(c[k] == levels[k]);
            }
        }
        assert forall|k: int| 0 <= k < c.len() implies #[trigger] c[k].1.len() > 0 by {
            if k < n - 2 {
                assert(c[k] == levels[k]);
            }
        }
    }
}

fn close_to_exec(
    indents: &mut Vec<usize>,
    accounts: &mut Vec<Vec<Account>>,
    indent: usize,
    Ghost(levels): Ghost<Seq<(int, Seq<AccountV>)>>,
) -> (ok: bool)
    requires
        levels_held(old(indents)@, old(accounts)@, levels),
        levels.len() > 0,
    ensures
        ok == close_to(levels, indent as int) is Some,
        ok ==> levels_held(final(indents)@, final(accounts)@, close_to(levels, indent as int)->0),
        ok ==> close_to(levels, indent as int)->0.len() > 0,
{
    let ghost mut cur = levels;
    while indents[indents.len() - 1] > indent
        invariant
            levels_held(indents@, accounts@, cur),
            cur.len() > 0,
            close_to(levels, indent as int) == close_to(cur, indent as int),
        decreases cur.len(),
    {
        assert(cur.last().0 == indents@[indents@.len() - 1]);
        if indents.len() == 1 {
            return false;
        }
        close_top_exec(indents, accounts, Ghost(cur));
        proof {
            cur = close_top(cur);
        }
    }
    assert(cur.last().0 == indents@[indents@.len() - 1]);
    let last = indents.len() - 1;
    indents.set(last, indent);
    proof {
        let c = cur.update(cur.len() - 1, (indent as int, cur.last().1));
        assert(levels_held(indents@, accounts@, c)) by {
            assert forall|k: int| 0 <= k < c.len() implies #[trigger] c[k] == (
                indents@[k] as int,
                account_views(accounts@[k]@),
            ) by {
                if k < c.len() - 1 {
                    assert(c[k] == cur[k]);
                }
            }
            assert forall|k: int| 0 <= k < c.len() implies #[trigger] c[k].1.len() > 0 by {
                if k < c.len() - 1 {
                    assert(c[k] == cur[k]);
                }
            }
        }
    }
    true
}


fn add_account_exec(
    indents: &Vec<usize>,
    accounts: &mut Vec<Vec<Account>>,
    a: Account,
    Ghost(levels): Ghost<Seq<(int, Seq<AccountV>)>>,
)
    requires
        levels_held(indents@, old(accounts)@, levels),
        levels.len() > 0,
    ensures
        levels_held(indents@, final(accounts)@, add_to_top(levels, a@)),
{
    let ghost n = levels.len();
    let ghost av = a@;
    let mut top = accounts.pop().unwrap();
    let ghost old_top = top@;
    top.push(a);
    assert(account_views(top@) =~= account_views(old_top).push(av));
    accounts.push(top);
    let ghost c = add_to_top(levels, av);
    assert(levels_held(indents@, accounts@, c)) by {
        assert forall|k: int| 0 <= k < c.len() implies #[trigger] c[k] == (
            indents@[k] as int,
            account_views(accounts@[k]@),
        ) by {
            if k < n - 1 {
                assert(c[k] == levels[k]);
            }
        }
        assert forall|k: int| 0 <= k < c.len() implies #[trigger] c[k].1.len() > 0 by {
            if k < n - 1 {
                assert(c[k] == levels[k]);
            }
        }
    }
}

fn open_level_exec(
    indents: &mut Vec<usize>,
    accounts: &mut Vec<Vec<Account>>,
    indent: usize,
    a: Account,
    Ghost(levels): Ghost<Seq<(int, Seq<AccountV>)>>,
)
    requires
        levels_held(old(indents)@, old(accounts)@, levels),
    ensures
        levels_held(final(indents)@, final(accounts)@, levels.push((indent as int, seq![a@]))),
{
    let ghost av = a@;
    let mut level: Vec<Account> = Vec::new();
    level.push(a);
    assert(account_views(level@) =~= seq![av]);
    indents.push(indent);
    accounts.push(level);
    let ghost c = levels.push((indent as int, seq![av]));
    assert(levels_held(indents@, accounts@, c)) by {
        assert forall|k: int| 0 <= k < c.len() implies #[trigger] c[k] == (
            indents@[k] as int,
            account_views(accounts@[k]@),
        ) by {
            if k < levels.len() {
                assert(c[k] == levels[k]);
            }
        }
        assert forall|k: int| 0 <= k < c.len() implies #[trigger] c[k].1.len() > 0 by {
            if k < levels.len() {
                assert(c[k] == levels[k]);
            }
        }
    }
}

/// The opening balance of `cents` cents on the account `number`.
fn balance_event_exec(number: i32, cents: i32) -> (r: Sexpr)
    ensures
        r@ == balance_event(number, cents),
{
    let mut money: Vec<Sexpr> = Vec::new();
    money.push(Sexpr::Atom(A::Symbol(String::from_str("money"))));
    money.push(Sexpr::Atom(A::Number(cents)));
    proof {
        lemma_list_view(money);
    }
    let mut ev: Vec<Sexpr> = Vec::new();
    ev.push(Sexpr::Atom(A::Number(number)));
    ev.push(Sexpr::List(money));
    proof {
        lemma_list_view(ev);
        assert(views(money@) =~= seq![sym("money"@), num(cents)]);
        assert(views(ev@) =~= seq![num(number), list(seq![sym("money"@), num(cents)])]);
    }
    Sexpr::List(ev)
}

/// The accounts of all levels, outermost level first, start with those of
/// the outermost level.
pub proof fn lemma_flat_front(levels: Seq<(int, Seq<AccountV>)>)
    requires
        levels.len() > 0,
    ensures
        flat(levels) == levels[0].1 + flat(levels.drop_first()),
    decreases levels.len(),
{
    if levels.len() == 1 {
        assert(levels.drop_last() =~= Seq::<(int, Seq<AccountV>)>::empty());
        assert(levels.drop_first() =~= Seq::<(int, Seq<AccountV>)>::empty());
        assert(flat(levels.drop_last()) == Seq::<AccountV>::empty());
        assert(flat(levels.drop_first()) == Seq::<AccountV>::empty());
        assert(flat(levels) =~= levels[0].1);
    } else {
        lemma_flat_front(levels.drop_last());
        assert(levels.drop_last().drop_first() =~= levels.drop_first().drop_last());
        assert(levels.drop_first().last() == levels.last());
        assert(flat(levels) =~= levels[0].1 + flat(levels.drop_first()));
    }
}

/// Reads the chart `tk`, or says why it cannot be read. `cents` holds, for
/// each line, the cents of its opening balance where that is a number.
pub fn try_parse_tk(tk: &str, cents: &Vec<Option<i32>>) -> (r: Result<(Sexpr, Sexpr), ChartError>)
    requires
        cents@.len() == split_lines(tk@).len(),
    ensures
        match r {
            Ok((a, e)) => spec_parse_tk(tk@, cents@) == Ok::<(SpecSexpr, SpecSexpr), ChartError>(
                (a@, e@),
            ),
            Err(err) => spec_parse_tk(tk@, cents@) == Err::<(SpecSexpr, SpecSexpr), ChartError>(
                err,
            ),
        },
{
    let cs = chars_of(tk);
    let lines = line_chars(&cs);
    let ghost ls = split_lines(tk@);
    let ghost init = ChartState { levels: Seq::empty(), events: Seq::empty() };
    let mut indents: Vec<usize> = Vec::new();
    let mut accounts: Vec<Vec<Account>> = Vec::new();
    let mut events: Vec<Sexpr> = Vec::new();
    let ghost mut st = init;
    let mut k: usize = 0;
    while k < lines.len()
        invariant
            cs@ == tk@,
            init == (ChartState { levels: Seq::empty(), events: Seq::empty() }),
            ls == split_lines(tk@),
            lines@.len() == ls.len(),
            cents@.len() == ls.len(),
            forall|m: int| 0 <= m < lines@.len() ==> #[trigger] lines@[m]@ == ls[m],
            k <= lines@.len(),
            levels_held(indents@, accounts@, st.levels),
            views(events@) == st.events,
            read_lines(ls, cents@, 0, init) == read_lines(ls, cents@, k as int, st),
        decreases lines@.len() - k,
    {
        let f = match read_line(&lines[k]) {
            Ok(f) => f,
            Err(e) => {
                assert(read_lines(ls, cents@, k as int, st) == Err::<ChartState, ChartError>(e));
                return Err(e);
            },
        };
        let ghost lf = line_fields(ls[k as int])->Ok_0;
        let has_balance = f.balance.is_some();
        let mut amount: i32 = 0;
        if has_balance {
            match cents[k] {
                None => {
                    assert(read_lines(ls, cents@, k as int, st) == Err::<ChartState, ChartError>(
                        ChartError::InvalidBalance,
                    ));
                    return Err(ChartError::InvalidBalance);
                },
                Some(c) => {
                    amount = c;
                },
            }
            let ev = balance_event_exec(f.number, amount);
            events.push(ev);
        }
        let ghost ev = balance_event(lf.number, cents@[k as int]->0);
        let ghost events1 = if lf.balance is Some {
            st.events.push(ev)
        } else {
            st.events
        };
        assert(views(events@) =~= events1);
        let ind = f.indent;
        let acc = init_account(f.number, f.name);
        let ghost av = acc@;
        assert(av == AccountV { number: lf.number, name: lf.name, children: Seq::empty() });
        if indents.len() == 0 {
            open_level_exec(&mut indents, &mut accounts, ind, acc, Ghost(st.levels));
            proof {
                assert(st.levels.push((ind as int, seq![av])) =~= seq![(ind as int, seq![av])]);
                st = ChartState { levels: seq![(ind as int, seq![av])], events: events1 };
            }
        } else {
            let top = indents[indents.len() - 1];
            assert(st.levels.last().0 == top);
            if top == ind {
                add_account_exec(&indents, &mut accounts, acc, Ghost(st.levels));
                proof {
                    st = ChartState { levels: add_to_top(st.levels, av), events: events1 };
                }
            } else if top < ind {
                open_level_exec(&mut indents, &mut accounts, ind, acc, Ghost(st.levels));
                proof {
                    st = ChartState {
                        levels: st.levels.push((ind as int, seq![av])),
                        events: events1,
                    };
                }
            } else {
                if !close_to_exec(&mut indents, &mut accounts, ind, Ghost(st.levels)) {
                    return Err(ChartError::IndentBelowFirst);
                }
                let ghost closed = close_to(st.levels, ind as int)->0;
                add_account_exec(&indents, &mut accounts, acc, Ghost(closed));
                proof {
                    st = ChartState { levels: add_to_top(closed, av), events: events1 };
                }
            }
        }
        k = k + 1;
    }
    if indents.len() == 0 {
        return Err(ChartError::NoLines);
    }
    if !close_to_exec(&mut indents, &mut accounts, 0, Ghost(st.levels)) {
        return Err(ChartError::IndentBelowFirst);
    }
    let ghost closed = close_to(st.levels, 0)->0;
    let mut all: Vec<Account> = Vec::new();
    let ghost mut rem = closed;
    assert(flat(closed) =~= account_views(all@) + flat(rem));
    while accounts.len() > 0
        invariant
            accounts@.len() == rem.len(),
            forall|m: int| 0 <= m < rem.len() ==> #[trigger] rem[m].1 == account_views(
                accounts@[m]@,
            ),
            flat(closed) == account_views(all@) + flat(rem),
        decreases rem.len(),
    {
        let mut level = accounts.remove(0);
        let ghost before = all@;
        proof {
            lemma_flat_front(rem);
        }
        assert(rem[0].1 == account_views(level@));
        all.append(&mut level);
        assert(account_views(all@) =~= account_views(before) + rem[0].1);
        proof {
            let r2 = rem.drop_first();
            assert forall|m: int| 0 <= m < r2.len() implies #[trigger] r2[m].1 == account_views(
                accounts@[m]@,
            ) by {
                assert(r2[m] == rem[m + 1]);
            }
            rem = r2;
        }
        assert(flat(closed) =~= account_views(all@) + flat(rem));
    }
    assert(flat(rem) =~= Seq::<AccountV>::empty());
    assert(account_views(all@) =~= flat(closed));
    let account_list = account_vec_to_sexpr(&mut all);
    proof {
        lemma_list_view(events);
    }
    Ok((account_list, Sexpr::List(events)))
}

/// Reads the chart `tk`, which must be readable. `cents` holds, for each
/// line, the cents of its opening balance where that is a number.
pub fn parse_tk(tk: String, cents: Vec<Option<i32>>) -> (r: (Sexpr, Sexpr))
    requires
        cents@.len() == split_lines(tk@).len(),
        spec_parse_tk(tk@, cents@) is Ok,
    ensures
        spec_parse_tk(tk@, cents@) == Ok::<(SpecSexpr, SpecSexpr), ChartError>((r.0@, r.1@)),
{
    match try_parse_tk(tk.as_str(), &cents) {
        Ok(r) => r,
        Err(_) => {
            proof {
                assert(false);
            }
            (Sexpr::List(Vec::new()), Sexpr::List(Vec::new()))
        },
    }
}


/// The accounts of `a` and its subaccounts in document order: each account
/// before its subaccounts, as `(number, name)`.
pub open spec fn preorder(a: AccountV) -> Seq<(i32, Seq<char>)>
    decreases a, 1nat,
{
    seq![(a.number, a.name)] + preorder_all(a.children)
}

/// The accounts of the forest `s` in document order.
pub open spec fn preorder_all(s: Seq<AccountV>) -> Seq<(i32, Seq<char>)>
    decreases s, 0nat,
{
    if s.len() == 0 {
        Seq::empty()
    } else {
        preorder_all(s.drop_last()) + preorder(s.last())
    }
}

/// The account that each of the lines `ls` names, as `(number, name)`.
pub open spec fn line_entries(ls: Seq<Seq<char>>) -> Seq<(i32, Seq<char>)> {
    Seq::new(
        ls.len(),
        |i: int| (line_fields(ls[i])->Ok_0.number, line_fields(ls[i])->Ok_0.name),
    )
}

/// Every level holds an account.
pub open spec fn levels_filled(levels: Seq<(int, Seq<AccountV>)>) -> bool {
    forall|k: int| 0 <= k < levels.len() ==> #[trigger] levels[k].1.len() > 0
}

proof fn lemma_preorder_all_concat(x: Seq<AccountV>, y: Seq<AccountV>)
    ensures
        preorder_all(x + y) == preorder_all(x) + preorder_all(y),
    decreases y.len(),
{
    if y.len() == 0 {
        assert(x + y =~= x);
        assert(preorder_all(x) + preorder_all(y) =~= preorder_all(x));
    } else {
        lemma_preorder_all_concat(x, y.drop_last());
        assert((x + y).drop_last() =~= x + y.drop_last());
        assert((x + y).last() == y.last());
        assert(preorder_all(x + y) =~= preorder_all(x) + preorder_all(y));
    }
}

proof fn lemma_flat_add_to_top(levels: Seq<(int, Seq<AccountV>)>, a: AccountV)
    requires
        levels.len() > 0,
    ensures
        flat(add_to_top(levels, a)) == flat(levels).push(a),
{
    let c = add_to_top(levels, a);
    assert(c.drop_last() =~= levels.drop_last());
    assert(flat(c) =~= flat(levels).push(a));
}

proof fn lemma_close_top_preorder(levels: Seq<(int, Seq<AccountV>)>)
    requires
        levels.len() >= 2,
        levels_filled(levels),
    ensures
        preorder_all(flat(close_top(levels))) == preorder_all(flat(levels)),
        levels_filled(close_top(levels)),
        close_top(levels).len() == levels.len() - 1,
{
    let n = levels.len();
    let rest = levels.drop_last();
    let top = levels.last();
    let p = rest.last();
    assert(p.1.len() > 0) by {
        assert(p == levels[n - 2]);
    }
    let acc = p.1.last();
    let acc2 = with_children(acc, top.1);
    let p2 = p.1.update(p.1.len() - 1, acc2);
    let c = close_top(levels);
    assert(c.drop_last() =~= rest.drop_last());
    assert(c.last().1 == p2);
    // The parent's accounts: the changed account gains the top level's accounts.
    assert(p2.drop_last() =~= p.1.drop_last());
    lemma_preorder_all_concat(acc.children, top.1);
    assert(preorder(acc2) =~= preorder(acc) + preorder_all(top.1));
    assert(preorder_all(p2) =~= preorder_all(p.1) + preorder_all(top.1));
    lemma_preorder_all_concat(flat(rest.drop_last()), p2);
    lemma_preorder_all_concat(flat(rest.drop_last()), p.1);
    lemma_preorder_all_concat(flat(rest), top.1);
    assert(flat(rest) == flat(rest.drop_last()) + p.1);
    assert(preorder_all(flat(c)) =~= preorder_all(flat(levels)));
    assert forall|k: int| 0 <= k < c.len() implies #[trigger] c[k].1.len() > 0 by {
        if k < c.len() - 1 {
            assert(c[k] == levels[k]);
        }
    }
}

proof fn lemma_close_to_preorder(levels: Seq<(int, Seq<AccountV>)>, indent: int)
    requires
        levels_filled(levels),
        close_to(levels, indent) is Some,
    ensures
        preorder_all(flat(close_to(levels, indent)->0)) == preorder_all(flat(levels)),
        levels_filled(close_to(levels, indent)->0),
        close_to(levels, indent)->0.len() > 0,
    decreases levels.len(),
{
    if levels.last().0 > indent {
        lemma_close_top_preorder(levels);
        lemma_close_to_preorder(close_top(levels), indent);
    } else {
        let c = levels.update(levels.len() - 1, (indent, levels.last().1));
        assert(c.drop_last() =~= levels.drop_last());
        assert(flat(c) == flat(levels));
        assert forall|k: int| 0 <= k < c.len() implies #[trigger] c[k].1.len() > 0 by {
            if k < c.len() - 1 {
                assert(c[k] == levels[k]);
            }
        }
    }
}

proof fn lemma_read_lines_preorder(
    lines: Seq<Seq<char>>,
    cents: Seq<Option<i32>>,
    k: int,
    st: ChartState,
)
    requires
        0 <= k <= lines.len(),
        levels_filled(st.levels),
        preorder_all(flat(st.levels)) == line_entries(lines.take(k)),
        read_lines(lines, cents, k, st) is Ok,
    ensures
        preorder_all(flat(read_lines(lines, cents, k, st)->Ok_0.levels)) == line_entries(lines),
        levels_filled(read_lines(lines, cents, k, st)->Ok_0.levels),
        lines.len() > 0 ==> read_lines(lines, cents, k, st)->Ok_0.levels.len() > 0,
        st.levels.len() > 0 ==> read_lines(lines, cents, k, st)->Ok_0.levels.len() > 0,
    decreases lines.len() - k,
{
    if k == lines.len() {
        assert(lines.take(k) =~= lines);
    } else {
        let f = line_fields(lines[k])->Ok_0;
        let a = AccountV { number: f.number, name: f.name, children: Seq::empty() };
        let ind = f.indent as int;
        let levels = st.levels;
        let entries = line_entries(lines.take(k + 1));
        assert(entries =~= line_entries(lines.take(k)).push((f.number, f.name)));
        assert(preorder(a) =~= seq![(f.number, f.name)]);
        if levels.len() == 0 {
            let l2 = seq![(ind, seq![a])];
            assert(l2.drop_last() =~= Seq::<(int, Seq<AccountV>)>::empty());
            assert(flat(l2.drop_last()) == Seq::<AccountV>::empty());
            assert(flat(l2) =~= seq![a]);
            assert(seq![a].drop_last() =~= Seq::<AccountV>::empty());
            assert(preorder_all(flat(l2)) =~= entries);
            assert(levels_filled(l2));
        } else if levels.last().0 == ind {
            let l2 = add_to_top(levels, a);
            lemma_flat_add_to_top(levels, a);
            assert(flat(l2).drop_last() =~= flat(levels));
            assert(preorder_all(flat(l2)) =~= entries);
            assert forall|m: int| 0 <= m < l2.len() implies #[trigger] l2[m].1.len() > 0 by {
                if m < l2.len() - 1 {
                    assert(l2[m] == levels[m]);
                }
            }
        } else if levels.last().0 < ind {
            let l2 = levels.push((ind, seq![a]));
            assert(l2.drop_last() =~= levels);
            lemma_preorder_all_concat(flat(levels), seq![a]);
            assert(seq![a].drop_last() =~= Seq::<AccountV>::empty());
            assert(preorder_all(seq![a]) =~= preorder(a));
            assert(preorder_all(flat(l2)) =~= entries);
            assert forall|m: int| 0 <= m < l2.len() implies #[trigger] l2[m].1.len() > 0 by {
                if m < l2.len() - 1 {
                    assert(l2[m] == levels[m]);
                }
            }
        } else {
            let closed = close_to(levels, ind)->0;
            lemma_close_to_preorder(levels, ind);
            let l2 = add_to_top(closed, a);
            lemma_flat_add_to_top(closed, a);
            assert(flat(l2).drop_last() =~= flat(closed));
            assert(preorder_all(flat(l2)) =~= entries);
            assert forall|m: int| 0 <= m < l2.len() implies #[trigger] l2[m].1.len() > 0 by {
                if m < l2.len() - 1 {
                    assert(l2[m] == closed[m]);
                }
            }
        }
        let st2 = read_lines(lines, cents, k, st);
        let events = if f.balance is Some {
            st.events.push(balance_event(f.number, cents[k]->0))
        } else {
            st.events
        };
        if levels.len() == 0 {
            lemma_read_lines_preorder(
                lines,
                cents,
                k + 1,
                ChartState { levels: seq![(ind, seq![a])], events },
            );
        } else if levels.last().0 == ind {
            lemma_read_lines_preorder(
                lines,
                cents,
                k + 1,
                ChartState { levels: add_to_top(levels, a), events },
            );
        } else if levels.last().0 < ind {
            lemma_read_lines_preorder(
                lines,
                cents,
                k + 1,
                ChartState { levels: levels.push((ind, seq![a])), events },
            );
        } else {
            let closed = close_to(levels, ind)->0;
            lemma_read_lines_preorder(
                lines,
                cents,
                k + 1,
                ChartState { levels: add_to_top(closed, a), events },
            );
        }
    }
}

/// Reading a chart keeps its accounts in order: listed each before its
/// subaccounts, the accounts of the chart are those of its lines, line by
/// line, with the numbers and names that the lines give them.
pub proof fn law_chart_keeps_line_order(tk: Seq<char>, cents: Seq<Option<i32>>)
    requires
        spec_chart(tk, cents) is Ok,
    ensures
        preorder_all(spec_chart(tk, cents)->Ok_0.0) == line_entries(split_lines(tk)),
{
    let lines = split_lines(tk);
    let init = ChartState { levels: Seq::empty(), events: Seq::empty() };
    assert(lines.take(0) =~= Seq::<Seq<char>>::empty());
    assert(line_entries(lines.take(0)) =~= Seq::<(i32, Seq<char>)>::empty());
    assert(flat(init.levels) == Seq::<AccountV>::empty());
    lemma_read_lines_preorder(lines, cents, 0, init);
    let st = read_lines(lines, cents, 0, init)->Ok_0;
    lemma_close_to_preorder(st.levels, 0);
}


/// The numbers and names of the accounts `s`.
pub open spec fn entries(s: Seq<AccountV>) -> Seq<(i32, Seq<char>)> {
    Seq::new(s.len(), |i: int| (s[i].number, s[i].name))
}

/// The accounts that the unindented lines among `ls` name, in order.
pub open spec fn unindented(ls: Seq<Seq<char>>) -> Seq<(i32, Seq<char>)>
    decreases ls.len(),
{
    if ls.len() == 0 {
        Seq::empty()
    } else {
        let f = line_fields(ls.last())->Ok_0;
        unindented(ls.drop_last()) + if f.indent == 0 {
            seq![(f.number, f.name)]
        } else {
            Seq::empty()
        }
    }
}

/// The levels are indented ever further, none of them less than not at all.
pub open spec fn ascending(levels: Seq<(int, Seq<AccountV>)>) -> bool {
    &&& forall|i: int, j: int| 0 <= i < j < levels.len() ==> levels[i].0 < levels[j].0
    &&& forall|i: int| 0 <= i < levels.len() ==> #[trigger] levels[i].0 >= 0
}

proof fn lemma_close_top_bottom(levels: Seq<(int, Seq<AccountV>)>)
    requires
        levels.len() >= 2,
        ascending(levels),
        levels_filled(levels),
    ensures
        ascending(close_top(levels)),
        close_top(levels)[0].0 == levels[0].0,
        entries(close_top(levels)[0].1) == entries(levels[0].1),
{
    let c = close_top(levels);
    lemma_close_top_preorder(levels);
    assert forall|i: int| 0 <= i < c.len() implies #[trigger] c[i].0 == levels[i].0 by {}
    if levels.len() == 2 {
        let p = levels[0].1;
        assert(p.len() > 0);
        assert(entries(c[0].1) =~= entries(p));
    } else {
        assert(c[0] == levels[0]);
    }
}

proof fn lemma_close_to_bottom(levels: Seq<(int, Seq<AccountV>)>, indent: int)
    requires
        levels.len() > 0,
        ascending(levels),
        levels_filled(levels),
        indent >= 0,
        close_to(levels, indent) is Some,
    ensures
        ({
            let c = close_to(levels, indent)->0;
            &&& ascending(c)
            &&& levels_filled(c)
            &&& c.len() > 0
            &&& entries(c[0].1) == entries(levels[0].1)
            &&& c[0].0 >= levels[0].0
            &&& c.len() == 1 ==> c[0].0 == indent
            &&& c.len() > 1 ==> c[0].0 == levels[0].0 && c.last().0 == indent
        }),
    decreases levels.len(),
{
    if levels.last().0 > indent {
        lemma_close_top_bottom(levels);
        lemma_close_top_preorder(levels);
        lemma_close_to_bottom(close_top(levels), indent);
    } else {
        lemma_close_to_preorder(levels, indent);
        let c = levels.update(levels.len() - 1, (indent, levels.last().1));
        assert(ascending(c)) by {
            assert forall|i: int, j: int| 0 <= i < j < c.len() implies c[i].0 < c[j].0 by {
                if j == c.len() - 1 {
                    assert(levels[i].0 < levels[j].0);
                } else {
                    assert(levels[i].0 < levels[j].0);
                }
            }
        }
        if levels.len() > 1 {
            assert(c[0] == levels[0]);
        }
    }
}

proof fn lemma_read_lines_unindented(
    lines: Seq<Seq<char>>,
    cents: Seq<Option<i32>>,
    k: int,
    st: ChartState,
)
    requires
        0 <= k <= lines.len(),
        levels_filled(st.levels),
        ascending(st.levels),
        st.levels.len() > 0 || k == 0,
        st.levels.len() > 0 && st.levels[0].0 == 0 ==> entries(st.levels[0].1) == unindented(
            lines.take(k),
        ),
        read_lines(lines, cents, k, st) is Ok,
    ensures
        ({
            let r = read_lines(lines, cents, k, st)->Ok_0.levels;
            &&& levels_filled(r)
            &&& ascending(r)
            &&& (lines.len() > 0 || st.levels.len() > 0) ==> r.len() > 0
            &&& st.levels.len() > 0 ==> r[0].0 >= st.levels[0].0
            &&& r.len() > 0 && r[0].0 == 0 ==> entries(r[0].1) == unindented(lines)
        }),
    decreases lines.len() - k,
{
    if k == lines.len() {
        assert(lines.take(k) =~= lines);
    } else {
        let f = line_fields(lines[k])->Ok_0;
        let a = AccountV { number: f.number, name: f.name, children: Seq::empty() };
        let ind = f.indent as int;
        let levels = st.levels;
        let events = if f.balance is Some {
            st.events.push(balance_event(f.number, cents[k]->0))
        } else {
            st.events
        };
        let t1 = lines.take(k + 1);
        assert(t1.drop_last() =~= lines.take(k));
        assert(t1.last() == lines[k]);
        let grown = unindented(lines.take(k)) + seq![(f.number, f.name)];
        assert(ind == 0 ==> unindented(t1) == grown);
        assert(ind != 0 ==> unindented(t1) =~= unindented(lines.take(k)));
        if levels.len() == 0 {
            let l2 = seq![(ind, seq![a])];
            assert(levels_filled(l2));
            assert(ascending(l2));
            assert(ind == 0 ==> entries(l2[0].1) =~= grown) by {
                if ind == 0 {
                    assert(lines.take(k) =~= Seq::<Seq<char>>::empty());
                    assert(unindented(lines.take(k)) =~= Seq::<(i32, Seq<char>)>::empty());
                }
            }
            lemma_read_lines_unindented(lines, cents, k + 1, ChartState { levels: l2, events });
        } else if levels.last().0 == ind {
            let l2 = add_to_top(levels, a);
            assert(levels_filled(l2)) by {
                assert forall|m: int| 0 <= m < l2.len() implies #[trigger] l2[m].1.len() > 0 by {
                    if m < l2.len() - 1 {
                        assert(l2[m] == levels[m]);
                    }
                }
            }
            assert forall|m: int| 0 <= m < l2.len() implies #[trigger] l2[m].0 == levels[m].0 by {}
            if levels.len() == 1 {
                assert(entries(l2[0].1) =~= entries(levels[0].1) + seq![(f.number, f.name)]);
            } else {
                assert(levels[0].0 < levels[levels.len() - 1].0);
                assert(l2[0] == levels[0]);
            }
            lemma_read_lines_unindented(lines, cents, k + 1, ChartState { levels: l2, events });
        } else if levels.last().0 < ind {
            let l2 = levels.push((ind, seq![a]));
            assert(levels_filled(l2)) by {
                assert forall|m: int| 0 <= m < l2.len() implies #[trigger] l2[m].1.len() > 0 by {
                    if m < l2.len() - 1 {
                        assert(l2[m] == levels[m]);
                    }
                }
            }
            assert(ascending(l2)) by {
                assert forall|i: int, j: int| 0 <= i < j < l2.len() implies l2[i].0 < l2[j].0 by {
                    if j == l2.len() - 1 {
                        if i < levels.len() - 1 {
                            assert(levels[i].0 < levels[levels.len() - 1].0);
                        }
                    } else {
                        assert(levels[i].0 < levels[j].0);
                    }
                }
            }
            assert(l2[0] == levels[0]);
            assert(levels[0].0 <= levels.last().0) by {
                if levels.len() > 1 {
                    assert(levels[0].0 < levels[levels.len() - 1].0);
                }
            }
            lemma_read_lines_unindented(lines, cents, k + 1, ChartState { levels: l2, events });
        } else {
            let closed = close_to(levels, ind)->0;
            lemma_close_to_bottom(levels, ind);
            let l2 = add_to_top(closed, a);
            assert(levels_filled(l2)) by {
                assert forall|m: int| 0 <= m < l2.len() implies #[trigger] l2[m].1.len() > 0 by {
                    if m < l2.len() - 1 {
                        assert(l2[m] == closed[m]);
                    }
                }
            }
            assert forall|m: int| 0 <= m < l2.len() implies #[trigger] l2[m].0 == closed[m].0 by {}
            if closed.len() == 1 {
                assert(entries(l2[0].1) =~= entries(closed[0].1) + seq![(f.number, f.name)]);
            } else {
                assert(closed[0].0 < closed[closed.len() - 1].0);
                assert(l2[0] == closed[0]);
            }
            lemma_read_lines_unindented(
                lines,
                cents,
                k + 1,
                ChartState { levels: l2, events },
            );
        }
    }
}

/// The accounts at the top of a chart are its unindented lines: the
/// accounts that the chart holds outside any other are those that the
/// unindented lines name, in the order of the lines.
pub proof fn law_top_accounts_are_unindented_lines(tk: Seq<char>, cents: Seq<Option<i32>>)
    requires
        spec_chart(tk, cents) is Ok,
    ensures
        entries(spec_chart(tk, cents)->Ok_0.0) == unindented(split_lines(tk)),
{
    let lines = split_lines(tk);
    let init = ChartState { levels: Seq::empty(), events: Seq::empty() };
    lemma_read_lines_unindented(lines, cents, 0, init);
    let st = read_lines(lines, cents, 0, init)->Ok_0;
    lemma_close_to_bottom(st.levels, 0);
    let c = close_to(st.levels, 0)->0;
    if c.len() > 1 {
        assert(c[0].0 < c[c.len() - 1].0);
    }
    assert(c.len() == 1);
    assert(c.drop_last() =~= Seq::<(int, Seq<AccountV>)>::empty());
    assert(flat(c.drop_last()) == Seq::<AccountV>::empty());
    assert(flat(c) =~= c[0].1);
}


/// The depth of `a` (at depth `d`) and of each of its subaccounts, in
/// document order.
pub open spec fn depths(a: AccountV, d: int) -> Seq<int>
    decreases a, 1nat,
{
    seq![d] + depths_all(a.children, d + 1)
}

/// The depths of the accounts of the forest `s` (at depth `d`) and of their
/// subaccounts, in document order.
pub open spec fn depths_all(s: Seq<AccountV>, d: int) -> Seq<int>
    decreases s, 0nat,
{
    if s.len() == 0 {
        Seq::empty()
    } else {
        depths_all(s.drop_last(), d) + depths(s.last(), d)
    }
}

/// The depths of all accounts of the open levels, in document order: the
/// accounts of level `i` stand at depth `i`.
pub open spec fn level_depths(levels: Seq<(int, Seq<AccountV>)>) -> Seq<int>
    decreases levels.len(),
{
    if levels.len() == 0 {
        Seq::empty()
    } else {
        level_depths(levels.drop_last()) + depths_all(levels.last().1, levels.len() - 1)
    }
}

/// The indentation of the line `l`.
pub open spec fn line_indent(l: Seq<char>) -> int {
    line_fields(l)->Ok_0.indent as int
}

/// The depths `d` of the accounts of the lines `ls` follow their
/// indentation: the first line stands at the top; a line indented further
/// than the line before it stands one deeper, as its subaccount; a line
/// indented as far stands as deep; a line indented less stands higher.
pub open spec fn follows_indentation(ls: Seq<Seq<char>>, d: Seq<int>) -> bool {
    &&& d.len() == ls.len()
    &&& ls.len() > 0 ==> d[0] == 0
    &&& forall|k: int|
        #![trigger d[k + 1]]
        0 <= k < ls.len() - 1 ==> {
            &&& line_indent(ls[k + 1]) > line_indent(ls[k]) ==> d[k + 1] == d[k] + 1
            &&& line_indent(ls[k + 1]) == line_indent(ls[k]) ==> d[k + 1] == d[k]
            &&& line_indent(ls[k + 1]) < line_indent(ls[k]) ==> d[k + 1] < d[k]
        }
}

proof fn lemma_depths_all_concat(x: Seq<AccountV>, y: Seq<AccountV>, d: int)
    ensures
        depths_all(x + y, d) == depths_all(x, d) + depths_all(y, d),
    decreases y.len(),
{
    if y.len() == 0 {
        assert(x + y =~= x);
        assert(depths_all(x, d) + depths_all(y, d) =~= depths_all(x, d));
    } else {
        lemma_depths_all_concat(x, y.drop_last(), d);
        assert((x + y).drop_last() =~= x + y.drop_last());
        assert(depths_all(x + y, d) =~= depths_all(x, d) + depths_all(y, d));
    }
}

proof fn lemma_depths_leaf(a: AccountV, d: int)
    requires
        a.children.len() == 0,
    ensures
        depths_all(seq![a], d) == seq![d],
{
    assert(seq![a].drop_last() =~= Seq::<AccountV>::empty());
    assert(depths_all(seq![a].drop_last(), d) == Seq::<int>::empty());
    assert(seq![a].last() == a);
    assert(depths_all(a.children, d + 1) == Seq::<int>::empty());
    assert(depths(a, d) =~= seq![d]);
    assert(depths_all(seq![a], d) =~= seq![d]);
}

proof fn lemma_level_depths_add(levels: Seq<(int, Seq<AccountV>)>, a: AccountV)
    requires
        levels.len() > 0,
        a.children.len() == 0,
    ensures
        level_depths(add_to_top(levels, a)) == level_depths(levels).push(levels.len() - 1),
{
    let c = add_to_top(levels, a);
    assert(c.drop_last() =~= levels.drop_last());
    lemma_depths_all_concat(levels.last().1, seq![a], levels.len() - 1);
    lemma_depths_leaf(a, levels.len() - 1);
    assert(levels.last().1.push(a) =~= levels.last().1 + seq![a]);
    assert(level_depths(c) =~= level_depths(levels).push(levels.len() - 1));
}

proof fn lemma_level_depths_open(levels: Seq<(int, Seq<AccountV>)>, ind: int, a: AccountV)
    requires
        a.children.len() == 0,
    ensures
        level_depths(levels.push((ind, seq![a]))) == level_depths(levels).push(levels.len() as int),
{
    let c = levels.push((ind, seq![a]));
    assert(c.drop_last() =~= levels);
    lemma_depths_leaf(a, levels.len() as int);
    assert(level_depths(c) =~= level_depths(levels).push(levels.len() as int));
}

proof fn lemma_close_top_depths(levels: Seq<(int, Seq<AccountV>)>)
    requires
        levels.len() >= 2,
        levels_filled(levels),
    ensures
        level_depths(close_top(levels)) == level_depths(levels),
{
    let n = levels.len();
    let rest = levels.drop_last();
    let top = levels.last();
    let p = rest.last();
    assert(p.1.len() > 0) by {
        assert(p == levels[n - 2]);
    }
    let acc = p.1.last();
    let acc2 = with_children(acc, top.1);
    let p2 = p.1.update(p.1.len() - 1, acc2);
    let c = close_top(levels);
    let d = n - 2;
    assert(c.drop_last() =~= rest.drop_last());
    assert(c.last().1 == p2);
    assert(c.len() - 1 == d);
    assert(p2.drop_last() =~= p.1.drop_last());
    lemma_depths_all_concat(acc.children, top.1, d + 1);
    assert(depths(acc2, d) =~= depths(acc, d) + depths_all(top.1, d + 1));
    assert(depths_all(p2, d) =~= depths_all(p.1, d) + depths_all(top.1, n - 1));
    assert(rest.drop_last().len() == d);
    assert(level_depths(rest) == level_depths(rest.drop_last()) + depths_all(p.1, d));
    assert(level_depths(c) =~= level_depths(levels));
}

proof fn lemma_close_to_depths(levels: Seq<(int, Seq<AccountV>)>, indent: int)
    requires
        levels.len() > 0,
        levels_filled(levels),
        close_to(levels, indent) is Some,
    ensures
        level_depths(close_to(levels, indent)->0) == level_depths(levels),
        close_to(levels, indent)->0.len() <= levels.len(),
        levels.last().0 > indent ==> close_to(levels, indent)->0.len() < levels.len(),
        close_to(levels, indent)->0.last().0 == indent,
    decreases levels.len(),
{
    if levels.last().0 > indent {
        lemma_close_top_depths(levels);
        lemma_close_top_preorder(levels);
        lemma_close_to_depths(close_top(levels), indent);
    } else {
        let c = levels.update(levels.len() - 1, (indent, levels.last().1));
        assert(c.drop_last() =~= levels.drop_last());
    }
}

/// Among the lines `ls`, the nearest line at or before line `i` that is
/// indented no further than `ind`; -1 where there is none.
pub open spec fn nearest_within(ls: Seq<Seq<char>>, ind: int, i: int) -> int
    decreases i + 1,
{
    if i < 0 {
        -1
    } else if line_indent(ls[i]) <= ind {
        i
    } else {
        nearest_within(ls, ind, i - 1)
    }
}

/// The nearest line before line `k` of `ls` that is indented no further than
/// it; -1 where there is none.
pub open spec fn nearest_before(ls: Seq<Seq<char>>, k: int) -> int {
    nearest_within(ls, line_indent(ls[k]), k - 1)
}

/// Each line indented less than the line before it goes back to an earlier
/// indentation: the nearest earlier line indented no further than it is
/// indented exactly as far.
pub open spec fn dedents_return(ls: Seq<Seq<char>>) -> bool {
    forall|k: int|
        #![trigger nearest_before(ls, k)]
        0 < k < ls.len() && line_indent(ls[k]) < line_indent(ls[k - 1]) ==> {
            &&& nearest_before(ls, k) >= 0
            &&& line_indent(ls[nearest_before(ls, k)]) == line_indent(ls[k])
        }
}

/// Of the lines `ls` before line `n`, each line indented less than the line
/// before it stands at the depth (in `d`) of the nearest earlier line
/// indented no further than it.
pub open spec fn dedents_stand(ls: Seq<Seq<char>>, d: Seq<int>, n: int) -> bool {
    forall|k: int|
        #![trigger nearest_before(ls, k)]
        0 < k < n && line_indent(ls[k]) < line_indent(ls[k - 1]) ==> d[k] == d[nearest_before(
            ls,
            k,
        )]
}

/// Each line before `n` that only deeper lines follow (before `n`) stands on
/// an open level, indented as far as that level.
spec fn open_lines_match(
    ls: Seq<Seq<char>>,
    d: Seq<int>,
    levels: Seq<(int, Seq<AccountV>)>,
    n: int,
) -> bool {
    forall|m: int|
        #![trigger d[m]]
        0 <= m < n && (forall|i: int| m < i < n ==> #[trigger] d[i] > d[m]) ==> {
            &&& 0 <= d[m] < levels.len()
            &&& levels[d[m]].0 == line_indent(ls[m])
        }
}

proof fn lemma_nearest_within(ls: Seq<Seq<char>>, ind: int, i: int)
    requires
        -1 <= i < ls.len(),
    ensures
        -1 <= nearest_within(ls, ind, i) <= i,
        nearest_within(ls, ind, i) >= 0 ==> line_indent(ls[nearest_within(ls, ind, i)]) <= ind,
        forall|q: int|
            nearest_within(ls, ind, i) < q <= i ==> #[trigger] line_indent(ls[q]) > ind,
    decreases i + 1,
{
    if i >= 0 && line_indent(ls[i]) > ind {
        lemma_nearest_within(ls, ind, i - 1);
    }
}

proof fn lemma_nearest_before(ls: Seq<Seq<char>>, k: int)
    requires
        0 <= k < ls.len(),
    ensures
        -1 <= nearest_before(ls, k) < k,
        nearest_before(ls, k) >= 0 ==> line_indent(ls[nearest_before(ls, k)]) <= line_indent(
            ls[k],
        ),
        forall|q: int|
            nearest_before(ls, k) < q < k ==> #[trigger] line_indent(ls[q]) > line_indent(ls[k]),
{
    lemma_nearest_within(ls, line_indent(ls[k]), k - 1);
}

/// Where every line back to `j` is indented further than line `j`, line `i`
/// stands deeper than it.
proof fn lemma_deeper_after(ls: Seq<Seq<char>>, d: Seq<int>, j: int, i: int, n: int)
    requires
        0 <= j < i < n <= ls.len(),
        follows_indentation(ls.take(n), d),
        dedents_return(ls),
        dedents_stand(ls, d, n),
        forall|q: int| j < q <= i ==> #[trigger] line_indent(ls[q]) > line_indent(ls[j]),
    ensures
        d[i] > d[j],
    decreases i,
{
    let t = ls.take(n);
    let q = i - 1;
    assert(t[q] == ls[q]);
    assert(t[q + 1] == ls[i]);
    assert(line_indent(t[q + 1]) > line_indent(t[q]) ==> d[q + 1] == d[q] + 1);
    assert(line_indent(ls[i]) > line_indent(ls[j]));
    if line_indent(ls[i]) > line_indent(ls[q]) {
        if q > j {
            lemma_deeper_after(ls, d, j, q, n);
        }
    } else if line_indent(ls[i]) == line_indent(ls[q]) {
        lemma_deeper_after(ls, d, j, q, n);
    } else {
        let p = nearest_before(ls, i);
        lemma_nearest_before(ls, i);
        assert(p >= 0 && line_indent(ls[p]) == line_indent(ls[i]));
        assert(p > j) by {
            if p < j {
                assert(line_indent(ls[j]) > line_indent(ls[i]));
            }
        }
        lemma_deeper_after(ls, d, j, p, n);
        assert(d[i] == d[p]);
    }
}

proof fn lemma_close_top_labels(levels: Seq<(int, Seq<AccountV>)>)
    requires
        levels.len() >= 2,
    ensures
        close_top(levels).len() == levels.len() - 1,
        forall|x: int| 0 <= x < levels.len() - 1 ==> #[trigger] close_top(levels)[x].0 == levels[x].0,
{
}

proof fn lemma_close_to_labels(levels: Seq<(int, Seq<AccountV>)>, indent: int)
    requires
        close_to(levels, indent) is Some,
    ensures
        close_to(levels, indent)->0.len() <= levels.len(),
        forall|x: int|
            0 <= x < close_to(levels, indent)->0.len() - 1 ==> #[trigger] close_to(
                levels,
                indent,
            )->0[x].0 == levels[x].0,
    decreases levels.len(),
{
    if levels.last().0 > indent {
        lemma_close_top_labels(levels);
        lemma_close_to_labels(close_top(levels), indent);
        let r = close_to(levels, indent)->0;
        assert forall|x: int| 0 <= x < r.len() - 1 implies #[trigger] r[x].0 == levels[x].0 by {
            assert(close_top(levels)[x].0 == levels[x].0);
        }
    }
}

/// Where an open level is indented as far as `indent`, closing to `indent`
/// stops at that level.
proof fn lemma_close_to_stop(levels: Seq<(int, Seq<AccountV>)>, indent: int, c: int)
    requires
        levels_filled(levels),
        ascending(levels),
        0 <= c < levels.len(),
        levels[c].0 == indent,
    ensures
        close_to(levels, indent) is Some,
        close_to(levels, indent)->0.len() == c + 1,
    decreases levels.len(),
{
    if levels.last().0 > indent {
        assert(c < levels.len() - 1);
        lemma_close_top_bottom(levels);
        lemma_close_top_preorder(levels);
        lemma_close_top_labels(levels);
        assert(close_top(levels)[c].0 == levels[c].0);
        lemma_close_to_stop(close_top(levels), indent, c);
    } else {
        assert(c == levels.len() - 1) by {
            if c < levels.len() - 1 {
                assert(levels[c].0 < levels[levels.len() - 1].0);
            }
        }
    }
}

/// The levels after a line indented `ind` that adds the account `a`.
spec fn next_levels(levels: Seq<(int, Seq<AccountV>)>, ind: int, a: AccountV) -> Seq<
    (int, Seq<AccountV>),
> {
    if levels.len() == 0 {
        seq![(ind, seq![a])]
    } else if levels.last().0 == ind {
        add_to_top(levels, a)
    } else if levels.last().0 < ind {
        levels.push((ind, seq![a]))
    } else {
        add_to_top(close_to(levels, ind)->0, a)
    }
}

proof fn lemma_next_levels(levels: Seq<(int, Seq<AccountV>)>, ind: int, a: AccountV)
    requires
        ascending(levels),
        levels_filled(levels),
        ind >= 0,
        levels.len() > 0 && levels.last().0 > ind ==> close_to(levels, ind) is Some,
    ensures
        ({
            let l2 = next_levels(levels, ind, a);
            &&& ascending(l2)
            &&& l2.len() > 0
            &&& l2.last().0 == ind
            &&& forall|x: int| 0 <= x < l2.len() - 1 ==> #[trigger] l2[x].0 == levels[x].0
        }),
{
    let l2 = next_levels(levels, ind, a);
    if levels.len() == 0 {
    } else if levels.last().0 == ind {
        assert forall|x: int| 0 <= x < l2.len() implies #[trigger] l2[x].0 == levels[x].0 by {}
    } else if levels.last().0 < ind {
        assert forall|x: int| 0 <= x < l2.len() - 1 implies #[trigger] l2[x].0 == levels[x].0 by {}
        assert(ascending(l2)) by {
            assert forall|i: int, j: int| 0 <= i < j < l2.len() implies l2[i].0 < l2[j].0 by {
                if j == l2.len() - 1 {
                    if i < levels.len() - 1 {
                        assert(levels[i].0 < levels[levels.len() - 1].0);
                    }
                } else {
                    assert(levels[i].0 < levels[j].0);
                }
            }
        }
    } else {
        let closed = close_to(levels, ind)->0;
        lemma_close_to_bottom(levels, ind);
        lemma_close_to_depths(levels, ind);
        lemma_close_to_labels(levels, ind);
        assert forall|x: int| 0 <= x < l2.len() implies #[trigger] l2[x].0 == closed[x].0 by {}
    }
}

/// One more line keeps each open line on an open level indented as far as
/// it, and a line indented less than the one before it stands as deep as the
/// nearest earlier line indented no further, where that line is indented as
/// far.
proof fn lemma_dedent_step(
    lines: Seq<Seq<char>>,
    k: int,
    levels: Seq<(int, Seq<AccountV>)>,
    l2: Seq<(int, Seq<AccountV>)>,
    nd: int,
)
    requires
        0 <= k < lines.len(),
        levels_filled(levels),
        ascending(levels),
        follows_indentation(lines.take(k), level_depths(levels)),
        k == 0 ==> levels.len() == 0,
        k > 0 ==> levels.len() > 0 && levels.last().0 == line_indent(lines[k - 1]),
        forall|m: int| 0 <= m < k ==> #[trigger] level_depths(levels)[m] >= 0,
        open_lines_match(lines, level_depths(levels), levels, k),
        dedents_return(lines) ==> dedents_stand(lines, level_depths(levels), k),
        l2.len() > 0,
        nd == l2.len() - 1,
        l2.last().0 == line_indent(lines[k]),
        forall|x: int| 0 <= x < l2.len() - 1 ==> #[trigger] l2[x].0 == levels[x].0,
        levels.len() > 0 && levels.last().0 > line_indent(lines[k]) ==> close_to(
            levels,
            line_indent(lines[k]),
        ) is Some && nd == close_to(levels, line_indent(lines[k]))->0.len() - 1,
    ensures
        forall|m: int| 0 <= m < k + 1 ==> #[trigger] level_depths(levels).push(nd)[m] >= 0,
        open_lines_match(lines, level_depths(levels).push(nd), l2, k + 1),
        dedents_return(lines) ==> dedents_stand(lines, level_depths(levels).push(nd), k + 1),
{
    let d = level_depths(levels);
    let d2 = d.push(nd);
    let ind = line_indent(lines[k]);
    assert(d.len() == k);
    assert forall|m: int| 0 <= m < k + 1 implies #[trigger] d2[m] >= 0 by {
        if m < k {
            assert(d2[m] == d[m]);
        }
    }
    assert forall|m: int|
        #![trigger d2[m]]
        0 <= m < k + 1 && (forall|i: int| m < i < k + 1 ==> #[trigger] d2[i] > d2[m]) implies {
        &&& 0 <= d2[m] < l2.len()
        &&& l2[d2[m]].0 == line_indent(lines[m])
    } by {
        if m < k {
            assert(d2[k] > d2[m]);
            assert forall|i: int| m < i < k implies #[trigger] d[i] > d[m] by {
                assert(d2[i] > d2[m]);
            }
            assert(d2[m] == d[m]);
            assert(0 <= d[m] < levels.len() && levels[d[m]].0 == line_indent(lines[m]));
            assert(l2[d[m]].0 == levels[d[m]].0);
        }
    }
    if dedents_return(lines) {
        assert forall|q: int|
            #![trigger nearest_before(lines, q)]
            0 < q < k + 1 && line_indent(lines[q]) < line_indent(lines[q - 1]) implies d2[q]
            == d2[nearest_before(lines, q)] by {
            lemma_nearest_before(lines, q);
            let j = nearest_before(lines, q);
            if q < k {
                assert(d2[q] == d[q]);
                assert(d2[j] == d[j]);
            } else {
                assert(j >= 0 && line_indent(lines[j]) == ind);
                assert forall|i: int| j < i < k implies #[trigger] d[i] > d[j] by {
                    assert forall|r: int| j < r <= i implies #[trigger] line_indent(lines[r])
                        > line_indent(lines[j]) by {}
                    lemma_deeper_after(lines, d, j, i, k);
                }
                assert(0 <= d[j] < levels.len() && levels[d[j]].0 == ind);
                lemma_close_to_stop(levels, ind, d[j]);
                assert(d2[j] == d[j]);
            }
        }
    }
}

#[verifier::rlimit(60)]
#[verifier::spinoff_prover]
proof fn lemma_read_lines_depths(
    lines: Seq<Seq<char>>,
    cents: Seq<Option<i32>>,
    k: int,
    st: ChartState,
)
    requires
        0 <= k <= lines.len(),
        levels_filled(st.levels),
        k == 0 ==> st.levels.len() == 0,
        k > 0 ==> st.levels.len() > 0 && st.levels.last().0 == line_indent(lines[k - 1])
            && level_depths(st.levels)[k - 1] == st.levels.len() - 1,
        follows_indentation(lines.take(k), level_depths(st.levels)),
        ascending(st.levels),
        forall|m: int| 0 <= m < k ==> #[trigger] level_depths(st.levels)[m] >= 0,
        open_lines_match(lines, level_depths(st.levels), st.levels, k),
        dedents_return(lines) ==> dedents_stand(lines, level_depths(st.levels), k),
        read_lines(lines, cents, k, st) is Ok,
    ensures
        follows_indentation(lines, level_depths(read_lines(lines, cents, k, st)->Ok_0.levels)),
        levels_filled(read_lines(lines, cents, k, st)->Ok_0.levels),
        dedents_return(lines) ==> dedents_stand(
            lines,
            level_depths(read_lines(lines, cents, k, st)->Ok_0.levels),
            lines.len() as int,
        ),
    decreases lines.len() - k,
{
    if k == lines.len() {
        assert(lines.take(k) =~= lines);
    } else {
        let f = line_fields(lines[k])->Ok_0;
        let a = AccountV { number: f.number, name: f.name, children: Seq::empty() };
        let ind = f.indent as int;
        assert(line_indent(lines[k]) == ind);
        let levels = st.levels;
        let d = level_depths(levels);
        let events = if f.balance is Some {
            st.events.push(balance_event(f.number, cents[k]->0))
        } else {
            st.events
        };
        let t1 = lines.take(k + 1);
        assert forall|m: int| 0 <= m < k implies #[trigger] t1[m] == lines.take(k)[m] by {}
        // The new line's depth, and the levels after it.
        let (l2, nd, events2) = if levels.len() == 0 {
            (seq![(ind, seq![a])], 0int, events)
        } else if levels.last().0 == ind {
            (add_to_top(levels, a), levels.len() - 1, events)
        } else if levels.last().0 < ind {
            (levels.push((ind, seq![a])), levels.len() as int, events)
        } else {
            let closed = close_to(levels, ind)->0;
            (
                add_to_top(closed, a),
                closed.len() - 1,
                events,
            )
        };
        assert(read_lines(lines, cents, k, st) == read_lines(
            lines,
            cents,
            k + 1,
            ChartState { levels: l2, events: events2 },
        ));
        if levels.len() == 0 {
            assert(d =~= Seq::<int>::empty());
            lemma_level_depths_open(levels, ind, a);
            assert(levels.push((ind, seq![a])) =~= l2);
        } else if levels.last().0 == ind {
            lemma_level_depths_add(levels, a);
        } else if levels.last().0 < ind {
            lemma_level_depths_open(levels, ind, a);
        } else {
            let closed = close_to(levels, ind)->0;
            lemma_close_to_depths(levels, ind);
            lemma_close_to_preorder(levels, ind);
            lemma_level_depths_add(closed, a);
        }
        assert(level_depths(l2) == d.push(nd));
        assert(l2.len() > 0 && l2.last().0 == ind);
        assert(nd == l2.len() - 1);
        assert(levels_filled(l2)) by {
            if levels.len() > 0 {
                let base = if levels.last().0 > ind {
                    close_to(levels, ind)->0
                } else {
                    levels
                };
                if levels.last().0 > ind {
                    lemma_close_to_preorder(levels, ind);
                }
                assert forall|m: int| 0 <= m < l2.len() implies #[trigger] l2[m].1.len() > 0 by {
                    if m < base.len() && m < l2.len() - 1 {
                        assert(l2[m] == base[m]);
                    }
                }
            }
        }
        let d2 = d.push(nd);
        assert(follows_indentation(t1, d2)) by {
            assert forall|m: int|
                #![trigger d2[m + 1]]
                0 <= m < t1.len() - 1 implies {
                &&& line_indent(t1[m + 1]) > line_indent(t1[m]) ==> d2[m + 1] == d2[m] + 1
                &&& line_indent(t1[m + 1]) == line_indent(t1[m]) ==> d2[m + 1] == d2[m]
                &&& line_indent(t1[m + 1]) < line_indent(t1[m]) ==> d2[m + 1] < d2[m]
            } by {
                if m < k - 1 {
                    assert(d2[m + 1] == d[m + 1]);
                    assert(d2[m] == d[m]);
                    assert(t1[m + 1] == lines.take(k)[m + 1]);
                    assert(t1[m] == lines.take(k)[m]);
                } else {
                    assert(m == k - 1);
                    assert(t1[m + 1] == lines[k]);
                    assert(t1[m] == lines[k - 1]);
                    if levels.last().0 > ind {
                        lemma_close_to_depths(levels, ind);
                    }
                }
            }
        }
        assert(levels.len() > 0 && levels.last().0 > ind ==> close_to(levels, ind) is Some);
        lemma_next_levels(levels, ind, a);
        assert(l2 == next_levels(levels, ind, a));
        lemma_dedent_step(lines, k, levels, l2, nd);
        lemma_read_lines_depths(lines, cents, k + 1, ChartState { levels: l2, events: events2 });
    }
}

/// The tree of a chart follows its indentation: listed each before its
/// subaccounts, the accounts stand at depths (0 at the top) that go one
/// deeper after a line indented further than the one before it, stay after
/// a line indented as far, and rise after a line indented less. So each
/// account's subaccounts are the lines below it that are indented further.
/// Where each line indented less than the one before it goes back to an
/// earlier indentation, it stands exactly as deep as the nearest earlier line
/// indented as far.
pub proof fn law_tree_follows_indentation(tk: Seq<char>, cents: Seq<Option<i32>>)
    requires
        spec_chart(tk, cents) is Ok,
    ensures
        follows_indentation(split_lines(tk), depths_all(spec_chart(tk, cents)->Ok_0.0, 0)),
        dedents_return(split_lines(tk)) ==> dedents_stand(
            split_lines(tk),
            depths_all(spec_chart(tk, cents)->Ok_0.0, 0),
            split_lines(tk).len() as int,
        ),
{
    let lines = split_lines(tk);
    let init = ChartState { levels: Seq::empty(), events: Seq::empty() };
    assert(lines.take(0) =~= Seq::<Seq<char>>::empty());
    assert(level_depths(init.levels) == Seq::<int>::empty());
    lemma_read_lines_depths(lines, cents, 0, init);
    lemma_read_lines_unindented(lines, cents, 0, init);
    let st = read_lines(lines, cents, 0, init)->Ok_0;
    lemma_close_to_depths(st.levels, 0);
    lemma_close_to_bottom(st.levels, 0);
    let c = close_to(st.levels, 0)->0;
    if c.len() > 1 {
        assert(c[0].0 < c[c.len() - 1].0);
    }
    assert(c.len() == 1);
    assert(c.drop_last() =~= Seq::<(int, Seq<AccountV>)>::empty());
    assert(flat(c.drop_last()) == Seq::<AccountV>::empty());
    assert(flat(c) =~= c[0].1);
    assert(level_depths(c.drop_last()) == Seq::<int>::empty());
    assert(level_depths(c) =~= depths_all(c[0].1, 0));
}


/// The opening balances of the lines `ls`: one event for each line with a
/// balance, in the order of the lines; `cents[k]` is that of line `k`.
pub open spec fn balance_events(ls: Seq<Seq<char>>, cents: Seq<Option<i32>>) -> Seq<SpecSexpr>
    decreases ls.len(),
{
    if ls.len() == 0 {
        Seq::empty()
    } else {
        let f = line_fields(ls.last())->Ok_0;
        balance_events(ls.drop_last(), cents) + if f.balance is Some {
            seq![balance_event(f.number, cents[ls.len() - 1]->0)]
        } else {
            Seq::empty()
        }
    }
}

proof fn lemma_balance_events_take(ls: Seq<Seq<char>>, cents: Seq<Option<i32>>, k: int)
    requires
        0 <= k < ls.len(),
    ensures
        balance_events(ls.take(k + 1), cents) == balance_events(ls.take(k), cents) + if line_fields(
            ls[k],
        )->Ok_0.balance is Some {
            seq![balance_event(line_fields(ls[k])->Ok_0.number, cents[k]->0)]
        } else {
            Seq::empty()
        },
{
    assert(ls.take(k + 1).drop_last() =~= ls.take(k));
    assert(ls.take(k + 1).last() == ls[k]);
}

proof fn lemma_read_lines_events(
    lines: Seq<Seq<char>>,
    cents: Seq<Option<i32>>,
    k: int,
    st: ChartState,
)
    requires
        0 <= k <= lines.len(),
        st.events == balance_events(lines.take(k), cents),
        read_lines(lines, cents, k, st) is Ok,
    ensures
        read_lines(lines, cents, k, st)->Ok_0.events == balance_events(lines, cents),
    decreases lines.len() - k,
{
    if k == lines.len() {
        assert(lines.take(k) =~= lines);
    } else {
        let f = line_fields(lines[k])->Ok_0;
        let a = AccountV { number: f.number, name: f.name, children: Seq::empty() };
        let ind = f.indent as int;
        let levels = st.levels;
        let events = if f.balance is Some {
            st.events.push(balance_event(f.number, cents[k]->0))
        } else {
            st.events
        };
        lemma_balance_events_take(lines, cents, k);
        assert(events =~= balance_events(lines.take(k + 1), cents));
        if levels.len() == 0 {
            lemma_read_lines_events(
                lines,
                cents,
                k + 1,
                ChartState { levels: seq![(ind, seq![a])], events },
            );
        } else if levels.last().0 == ind {
            lemma_read_lines_events(
                lines,
                cents,
                k + 1,
                ChartState { levels: add_to_top(levels, a), events },
            );
        } else if levels.last().0 < ind {
            lemma_read_lines_events(
                lines,
                cents,
                k + 1,
                ChartState { levels: levels.push((ind, seq![a])), events },
            );
        } else {
            lemma_read_lines_events(
                lines,
                cents,
                k + 1,
                ChartState { levels: add_to_top(close_to(levels, ind)->0, a), events },
            );
        }
    }
}

/// Each opening balance of a chart is recorded once: the events of a chart
/// are `(NUMBER (money CENTS))`, one for each line with a balance, in the
/// order of the lines.
pub proof fn law_one_event_per_balance(tk: Seq<char>, cents: Seq<Option<i32>>)
    requires
        spec_chart(tk, cents) is Ok,
    ensures
        spec_chart(tk, cents)->Ok_0.1 == balance_events(split_lines(tk), cents),
{
    let lines = split_lines(tk);
    let init = ChartState { levels: Seq::empty(), events: Seq::empty() };
    assert(lines.take(0) =~= Seq::<Seq<char>>::empty());
    assert(balance_events(lines.take(0), cents) == Seq::<SpecSexpr>::empty());
    lemma_read_lines_events(lines, cents, 0, init);
}


/// A currency sign that may end a balance.
pub open spec fn is_currency(c: char) -> bool {
    c == '€' || c == '$'
}

/// A decimal separator.
pub open spec fn is_separator(c: char) -> bool {
    c == ',' || c == '.'
}

/// No space stands in `l` after index `k`.
pub open spec fn no_space_after(l: Seq<char>, k: int) -> bool {
    forall|j: int| k < j < l.len() ==> #[trigger] l[j] != ' '
}

/// `l2` is the line `l1` with its balance written otherwise: with the other
/// currency sign, or with `.` for `,` or `,` for `.` in the last word.
pub open spec fn balance_variant(l1: Seq<char>, l2: Seq<char>) -> bool {
    &&& l1.len() == l2.len()
    &&& l1.len() > 0
    &&& is_currency(l1.last())
    &&& is_currency(l2.last())
    &&& forall|k: int|
        0 <= k < l1.len() - 1 && #[trigger] l1[k] != l2[k] ==> is_separator(l1[k]) && is_separator(
            l2[k],
        ) && no_space_after(l1, k)
}

proof fn lemma_scan_agree(
    t1: Seq<char>,
    t2: Seq<char>,
    i: int,
    stop: spec_fn(char) -> bool,
)
    requires
        0 <= i,
        t1.len() == t2.len(),
        forall|k: int| 0 <= k < t1.len() ==> stop(#[trigger] t1[k]) == stop(t2[k]),
    ensures
        scan(t1, i, stop) == scan(t2, i, stop),
    decreases t1.len() - i,
{
    if 0 <= i < t1.len() && !stop(t1[i]) {
        lemma_scan_agree(t1, t2, i + 1, stop);
    }
}

proof fn lemma_last_space_agree(t1: Seq<char>, t2: Seq<char>, lo: int, hi: int)
    requires
        0 <= lo,
        t1.len() == t2.len(),
        hi <= t1.len(),
        forall|k: int| 0 <= k < t1.len() ==> (#[trigger] t1[k] == ' ') == (t2[k] == ' '),
    ensures
        last_space(t1, lo, hi) == last_space(t2, lo, hi),
        last_space(t1, lo, hi) >= 0 ==> lo <= last_space(t1, lo, hi) < hi && t1[last_space(
            t1,
            lo,
            hi,
        )] == ' ',
    decreases hi - lo,
{
    if lo < hi && t1[hi - 1] != ' ' {
        lemma_last_space_agree(t1, t2, lo, hi - 1);
    }
}

/// Writing a balance with the other decimal separator or the other currency
/// sign does not change what the line says.
pub proof fn law_balance_writing_line(l1: Seq<char>, l2: Seq<char>)
    requires
        balance_variant(l1, l2),
    ensures
        line_fields(l1) == line_fields(l2),
{
    let n = l1.len();
    assert(trim_end(l1) == l1);
    assert(trim_end(l2) == l2);
    // Characters differ only where both are separators, or at the currency sign.
    assert forall|k: int| 0 <= k < n && l1[k] != l2[k] implies (is_separator(l1[k]) && is_separator(
        l2[k],
    )) || (k == n - 1 && is_currency(l1[k]) && is_currency(l2[k])) by {
        if k < n - 1 {
            assert(l1[k] != l2[k]);
        }
    }
    let ws = |c: char| !spec_is_whitespace(c);
    let numc = |c: char| !(c == '-' || is_digit(c));
    assert forall|k: int| 0 <= k < n implies ws(#[trigger] l1[k]) == ws(l2[k]) by {}
    assert forall|k: int| 0 <= k < n implies numc(#[trigger] l1[k]) == numc(l2[k]) by {}
    assert forall|k: int| 0 <= k < n implies (#[trigger] l1[k] == ' ') == (l2[k] == ' ') by {}
    lemma_scan_agree(l1, l2, 0, ws);
    lemma_scan(l1, 0, ws);
    let ind = indent_end(l1);
    assert(indent_end(l2) == ind);
    lemma_scan_agree(l1, l2, ind, numc);
    let ne = number_end(l1, ind);
    assert(number_end(l2, ind) == ne);
    lemma_scan(l1, ind, numc);
    assert(l1.subrange(ind, ne) =~= l2.subrange(ind, ne)) by {
        assert forall|k: int| 0 <= k < ne - ind implies #[trigger] l1.subrange(ind, ne)[k]
            == l2.subrange(ind, ne)[k] by {
            assert(!numc(l1[ind + k]));
        }
    }
    let rs = if ne < n {
        ne + 1
    } else {
        n as int
    };
    if rs < n {
        lemma_last_space_agree(l1, l2, rs, n as int);
        let sp = last_space(l1, rs, n as int);
        if sp >= 0 {
            assert(l1.subrange(rs, sp) =~= l2.subrange(rs, sp)) by {
                assert forall|k: int| 0 <= k < sp - rs implies #[trigger] l1.subrange(rs, sp)[k]
                    == l2.subrange(rs, sp)[k] by {
                    let m = rs + k;
                    if l1[m] != l2[m] {
                        assert(no_space_after(l1, m));
                        assert(l1[sp] == ' ');
                    }
                }
            }
            assert(decimal_point(l1.subrange(sp + 1, n - 1)) =~= decimal_point(
                l2.subrange(sp + 1, n - 1),
            )) by {
                assert forall|k: int| 0 <= k < n - 1 - (sp + 1) implies #[trigger] decimal_point(
                    l1.subrange(sp + 1, n - 1),
                )[k] == decimal_point(l2.subrange(sp + 1, n - 1))[k] by {
                    let m = sp + 1 + k;
                    assert(l1.subrange(sp + 1, n - 1)[k] == l1[m]);
                    assert(l2.subrange(sp + 1, n - 1)[k] == l2[m]);
                    if l1[m] != l2[m] {
                        assert(is_separator(l1[m]) && is_separator(l2[m]));
                    }
                }
            }
        }
    }
}

proof fn lemma_read_lines_agree(
    ls1: Seq<Seq<char>>,
    ls2: Seq<Seq<char>>,
    cents: Seq<Option<i32>>,
    k: int,
    st: ChartState,
)
    requires
        ls1.len() == ls2.len(),
        forall|m: int| 0 <= m < ls1.len() ==> line_fields(#[trigger] ls1[m]) == line_fields(ls2[m]),
    ensures
        read_lines(ls1, cents, k, st) == read_lines(ls2, cents, k, st),
    decreases ls1.len() - k,
{
    if 0 <= k < ls1.len() {
        assert(line_fields(ls1[k]) == line_fields(ls2[k]));
        let f = line_fields(ls1[k])->Ok_0;
        let a = AccountV { number: f.number, name: f.name, children: Seq::empty() };
        let ind = f.indent as int;
        let levels = st.levels;
        let events = if f.balance is Some {
            st.events.push(balance_event(f.number, cents[k]->0))
        } else {
            st.events
        };
        lemma_read_lines_agree(
            ls1,
            ls2,
            cents,
            k + 1,
            ChartState { levels: seq![(ind, seq![a])], events },
        );
        if levels.len() > 0 {
            lemma_read_lines_agree(
                ls1,
                ls2,
                cents,
                k + 1,
                ChartState { levels: add_to_top(levels, a), events },
            );
            lemma_read_lines_agree(
                ls1,
                ls2,
                cents,
                k + 1,
                ChartState { levels: levels.push((ind, seq![a])), events },
            );
            if close_to(levels, ind) is Some {
                lemma_read_lines_agree(
                    ls1,
                    ls2,
                    cents,
                    k + 1,
                    ChartState { levels: add_to_top(close_to(levels, ind)->0, a), events },
                );
            }
        }
    }
}

/// How the balances of a chart are written does not matter: charts whose
/// lines are the same but for balances written with the other decimal
/// separator or the other currency sign say the same on each line (so their
/// balances have the same text), and read as the same accounts and events.
pub proof fn law_balance_writing_does_not_matter(
    tk1: Seq<char>,
    tk2: Seq<char>,
    cents: Seq<Option<i32>>,
)
    requires
        split_lines(tk1).len() == split_lines(tk2).len(),
        forall|k: int|
            0 <= k < split_lines(tk1).len() ==> #[trigger] split_lines(tk1)[k] == split_lines(
                tk2,
            )[k] || balance_variant(split_lines(tk1)[k], split_lines(tk2)[k]),
    ensures
        forall|k: int|
            0 <= k < split_lines(tk1).len() ==> line_fields(#[trigger] split_lines(tk1)[k])
                == line_fields(split_lines(tk2)[k]),
        spec_chart(tk1, cents) == spec_chart(tk2, cents),
        spec_parse_tk(tk1, cents) == spec_parse_tk(tk2, cents),
{
    let ls1 = split_lines(tk1);
    let ls2 = split_lines(tk2);
    assert forall|k: int| 0 <= k < ls1.len() implies line_fields(#[trigger] ls1[k]) == line_fields(
        ls2[k],
    ) by {
        if ls1[k] != ls2[k] {
            law_balance_writing_line(ls1[k], ls2[k]);
        }
    }
    lemma_read_lines_agree(
        ls1,
        ls2,
        cents,
        0,
        ChartState { levels: Seq::empty(), events: Seq::empty() },
    );
}

proof fn lemma_trim_end(l: Seq<char>)
    ensures
        trim_end(l).len() <= l.len(),
        l.take(trim_end(l).len() as int) == trim_end(l),
        forall|i: int| trim_end(l).len() <= i < l.len() ==> spec_is_whitespace(#[trigger] l[i]),
        trim_end(l).len() > 0 ==> !spec_is_whitespace(trim_end(l).last()),
    decreases l.len(),
{
    if l.len() > 0 && spec_is_whitespace(l.last()) {
        lemma_trim_end(l.drop_last());
        let t = trim_end(l);
        assert(l.take(t.len() as int) =~= l.drop_last().take(t.len() as int));
        assert forall|i: int| t.len() <= i < l.len() implies spec_is_whitespace(#[trigger] l[i]) by {
            if i < l.len() - 1 {
                assert(l[i] == l.drop_last()[i]);
            }
        }
    } else {
        assert(l.take(l.len() as int) =~= l);
    }
}

proof fn lemma_last_space(t: Seq<char>, lo: int, hi: int)
    requires
        0 <= lo,
        hi <= t.len(),
    ensures
        last_space(t, lo, hi) >= 0 ==> lo <= last_space(t, lo, hi) < hi && t[last_space(
            t,
            lo,
            hi,
        )] == ' ',
        forall|i: int|
            last_space(t, lo, hi) < i < hi && lo <= i ==> #[trigger] t[i] != ' ',
    decreases hi - lo,
{
    if hi > lo && t[hi - 1] != ' ' {
        lemma_last_space(t, lo, hi - 1);
    }
}

/// How a chart line is read. Trailing white space aside, a line is its
/// indentation (white space), the account number (`-` and digits), one
/// character that is skipped, and then either, where the line ends in
/// neither `€` nor `$`, all of the rest as the name and no opening balance;
/// or, where it ends in `€` or `$`, the name, a space, and a last word
/// without spaces that is the balance with its currency sign, the balance
/// read with `,` as `.`.
pub proof fn law_line_shape(l: Seq<char>)
    requires
        line_fields(l) is Ok,
    ensures
        ({
            let f = line_fields(l)->Ok_0;
            let t = trim_end(l);
            let ind = f.indent as int;
            let cur = t.last() == '€' || t.last() == '$';
            let tail: int = if f.balance is Some {
                f.name.len() + f.balance->0.len() + 2int
            } else {
                f.name.len() as int
            };
            let head = t.len() - tail;
            &&& l.take(t.len() as int) == t
            &&& forall|i: int| t.len() <= i < l.len() ==> spec_is_whitespace(#[trigger] l[i])
            &&& t.len() > 0 && !spec_is_whitespace(t.last())
            &&& forall|i: int| 0 <= i < ind ==> spec_is_whitespace(#[trigger] t[i])
            &&& 0 <= ind < head - 1
            &&& forall|i: int| ind <= i < head - 1 ==> (#[trigger] t[i] == '-' || is_digit(t[i]))
            &&& !(t[head - 1] == '-' || is_digit(t[head - 1]))
            &&& spec_parse_i32(t.subrange(ind, head - 1)) == Some(f.number)
            &&& (f.balance is Some <==> cur)
            &&& !cur ==> t.subrange(head, t.len() as int) == f.name
            &&& cur ==> {
                let sp = head + f.name.len();
                &&& t.subrange(head, sp) == f.name
                &&& t[sp] == ' '
                &&& forall|i: int| sp < i < t.len() - 1 ==> #[trigger] t[i] != ' '
                &&& f.balance->0 == decimal_point(t.subrange(sp + 1, t.len() - 1))
            }
        }),
{
    let t = trim_end(l);
    lemma_trim_end(l);
    let ind = indent_end(t);
    let ne = number_end(t, ind);
    lemma_scan(t, 0, |c: char| !spec_is_whitespace(c));
    lemma_scan(t, ind, |c: char| !(c == '-' || is_digit(c)));
    let f = line_fields(l)->Ok_0;
    assert(ne < t.len());
    assert(ind < ne) by {
        if ind == ne {
            assert(t.subrange(ind, ne).len() == 0);
        }
    }
    assert forall|i: int| 0 <= i < ind implies spec_is_whitespace(#[trigger] t[i]) by {
        assert(!(|c: char| !spec_is_whitespace(c))(t[i]));
    }
    assert forall|i: int| ind <= i < ne implies (#[trigger] t[i] == '-' || is_digit(t[i])) by {
        assert(!(|c: char| !(c == '-' || is_digit(c)))(t[i]));
    }
    assert((|c: char| !(c == '-' || is_digit(c)))(t[ne]));
    let rs = ne + 1;
    if t.last() == '€' || t.last() == '$' {
        let sp = last_space(t, rs, t.len() as int);
        lemma_last_space(t, rs, t.len() as int);
        assert(f.name == t.subrange(rs, sp));
        assert(f.balance->0.len() == t.len() - 1 - (sp + 1));
    }
}

/// The accounts written in the account s-expressions `s`, in document
/// order: of each `(account NUMBER "NAME" (SUBACCOUNTS...))` its number and
/// name, then those written among its subaccounts.
pub open spec fn written_accounts(s: Seq<SpecSexpr>) -> Seq<(i32, Seq<char>)>
    decreases s, 0nat,
{
    if s.len() == 0 {
        Seq::empty()
    } else {
        written_accounts(s.drop_last()) + written_account(s.last())
    }
}

/// The accounts written in the account s-expression `e`: its number and
/// name, then those written among its subaccounts; nothing where `e` is not
/// written as an account.
pub open spec fn written_account(e: SpecSexpr) -> Seq<(i32, Seq<char>)>
    decreases e, 1nat,
{
    match e {
        SpecSexpr::List(items) => if items.len() == 4 {
            match (items[1], items[2]) {
                (
                    SpecSexpr::Atom(SpecAtom::Num(n)),
                    SpecSexpr::Atom(SpecAtom::Str(name)),
                ) => match items[3] {
                    SpecSexpr::List(sub) => {
                        proof {
                            assert(decreases_to!(e => items));
                            assert(decreases_to!(items => items[3]));
                        }
                        seq![(n, name)] + written_accounts(sub)
                    },
                    _ => Seq::empty(),
                },
                _ => Seq::empty(),
            }
        } else {
            Seq::empty()
        },
        _ => Seq::empty(),
    }
}

/// How an account is written: as `(account NUMBER "NAME" SUBACCOUNTS)`,
/// where `SUBACCOUNTS` lists every one of its subaccounts, each written the
/// same way, in their order.
pub proof fn law_account_sexpr_shape(a: AccountV)
    ensures
        account_sexpr(a) is List,
        account_sexpr(a)->List_0.len() == 4,
        account_sexpr(a)->List_0[0] == sym("account"@),
        account_sexpr(a)->List_0[1] == num(a.number),
        account_sexpr(a)->List_0[2] == quoted(a.name),
        account_sexpr(a)->List_0[3] is List,
        account_sexpr(a)->List_0[3]->List_0.len() == a.children.len(),
        forall|i: int|
            0 <= i < a.children.len() ==> #[trigger] account_sexpr(a)->List_0[3]->List_0[i]
                == account_sexpr(a.children[i]),
{
}

proof fn lemma_written_account(a: AccountV)
    ensures
        written_account(account_sexpr(a)) == preorder(a),
    decreases a, 1nat,
{
    law_account_sexpr_shape(a);
    let items = account_sexpr(a)->List_0;
    assert(items[3]->List_0 =~= accounts_sexprs(a.children));
    lemma_written_all(a.children);
}

proof fn lemma_written_all(s: Seq<AccountV>)
    ensures
        written_accounts(accounts_sexprs(s)) == preorder_all(s),
    decreases s, 0nat,
{
    if s.len() > 0 {
        assert(accounts_sexprs(s).drop_last() =~= accounts_sexprs(s.drop_last()));
        lemma_written_all(s.drop_last());
        lemma_written_account(s.last());
    } else {
        assert(accounts_sexprs(s) =~= Seq::<SpecSexpr>::empty());
    }
}

/// What is written of a chart names its accounts as its lines do: the
/// accounts written, read in document order, are exactly the chart's lines,
/// with the numbers and names that the lines give them.
pub proof fn law_written_chart_keeps_line_order(tk: Seq<char>, cents: Seq<Option<i32>>)
    requires
        spec_parse_tk(tk, cents) is Ok,
    ensures
        written_accounts(spec_parse_tk(tk, cents)->Ok_0.0->List_0) == line_entries(
            split_lines(tk),
        ),
{
    law_chart_keeps_line_order(tk, cents);
    lemma_written_all(spec_chart(tk, cents)->Ok_0.0);
}

proof fn lemma_newline_exact(s: Seq<char>, i: int, b: int)
    requires
        0 <= i <= b <= s.len(),
        forall|k: int| i <= k < b ==> #[trigger] s[k] != '\n',
        b < s.len() ==> s[b] == '\n',
    ensures
        scan(s, i, |c: char| c == '\n') == b,
    decreases b - i,
{
    if i < b {
        lemma_newline_exact(s, i + 1, b);
    }
}

/// The lines of a text are what stands between its line breaks: a line
/// without a break, followed by a break (or by a carriage return and a
/// break), is the first line, and the lines of what follows come after it;
/// a text without a break is one line; an empty text has none.
pub proof fn law_lines_split_at_breaks(a: Seq<char>, rest: Seq<char>)
    requires
        !a.contains('\n'),
    ensures
        split_lines(Seq::<char>::empty()) == Seq::<Seq<char>>::empty(),
        a.len() > 0 ==> split_lines(a) == seq![a],
        (a.len() == 0 || a.last() != '\r') ==> split_lines(a + seq!['\n'] + rest) == seq![a]
            + split_lines(rest),
        split_lines(a + seq!['\r', '\n'] + rest) == seq![a] + split_lines(rest),
{
    assert forall|k: int| 0 <= k < a.len() implies #[trigger] a[k] != '\n' by {
        if a[k] == '\n' {
            assert(a.contains('\n'));
        }
    }
    if a.len() > 0 {
        lemma_newline_exact(a, 0, a.len() as int);
    }
    let s1 = a + seq!['\n'] + rest;
    assert forall|k: int| 0 <= k < a.len() implies #[trigger] s1[k] != '\n' by {
        assert(s1[k] == a[k]);
    }
    lemma_newline_exact(s1, 0, a.len() as int);
    assert(s1.take(a.len() as int) =~= a);
    assert(s1.skip(a.len() as int + 1) =~= rest);
    let a2 = a + seq!['\r'];
    let s2 = a + seq!['\r', '\n'] + rest;
    assert forall|k: int| 0 <= k < a2.len() implies #[trigger] s2[k] != '\n' by {
        if k < a.len() {
            assert(s2[k] == a[k]);
        }
    }
    lemma_newline_exact(s2, 0, a2.len() as int);
    assert(s2.take(a2.len() as int) =~= a2);
    assert(a2.drop_last() =~= a);
    assert(s2.skip(a2.len() as int + 1) =~= rest);
}

/// An opening balance is recorded as `(NUMBER (money CENTS))`: the account's
/// number, then its money in cents, as handed in.
pub proof fn law_balance_event_shape(number: i32, cents: i32)
    ensures
        balance_event(number, cents) is List,
        balance_event(number, cents)->List_0.len() == 2,
        balance_event(number, cents)->List_0[0] == num(number),
        balance_event(number, cents)->List_0[1] == list(seq![sym("money"@), num(cents)]),
{
}

} // verus!
