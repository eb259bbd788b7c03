//! The report renderer and the multi-file driver.
//!
//! Output is produced as a vector of lines.  Sections follow a fixed order:
//! account details, account summary, the monthly breakdown (most recent
//! month key first), and the recurrent payments.  Blank-line pairs separate
//! the sections; the exact line structure is part of every contract here.

use vstd::prelude::*;
use vstd::string::*;

use crate::account::{account_wf, combine_spec, sum_expenses, sum_if, sum_income, summary_wf,
    txn_line, txn_wf, Account, AccountView, Summary, SummaryView, Transaction, TransactionView};
use crate::parse::{parse, parse_spec, reading_line, ParseError, ParseErrorView};
use crate::recurrent::{groups_lines, groups_ok, max_key_len, order_ok, RecurrentPaymentView};
use crate::amount::{cents_str, cents_string, dec_str, dec_string, signed_cents_str,
    signed_cents_string, AMOUNT_LIMIT};
use crate::sort::{lemma_push_contains, row_lt, sort_rows};
use crate::style::{bold, bold_spec, underline, underline_spec, Style};
use crate::text::{lemma_views_push, lex_lt, str_eq, views};

verus! {

/// How many expense rows a month prints; totals always cover all of them.
pub const TOP_EXPENSES: usize = 10;

/// Appends the blank-line pair that separates top-level sections.
pub fn print_section_separator(out: &mut Vec<String>)
    ensures
        views(final(out)@) == views(old(out)@) + seq![
            Seq::<char>::empty(),
            Seq::<char>::empty(),
        ],
{
    let blank1 = String::new();
    proof {
        lemma_views_push(out@, blank1);
    }
    out.push(blank1);
    let blank2 = String::new();
    proof {
        lemma_views_push(out@, blank2);
    }
    out.push(blank2);
    proof {
        assert(views(out@) =~= views(old(out)@) + seq![
            Seq::<char>::empty(),
            Seq::<char>::empty(),
        ]);
    }
}

/// The account-details section: number, transaction count, and the period
/// from first to last entry date when any transaction exists.
pub open spec fn account_details_lines(a: AccountView) -> Seq<Seq<char>> {
    let base = seq![
        "     Account: "@ + a.number,
        "Transactions: "@ + dec_str(a.transactions.len() as int),
    ];
    if a.transactions.len() > 0 {
        base.push(
            "      Period: "@ + a.transactions.first().entry_date + " - "@
                + a.transactions.last().entry_date,
        )
    } else {
        base
    }
}

/// Appends the account-details section.
pub fn print_account_details(out: &mut Vec<String>, account: &Account)
    ensures
        views(final(out)@) == views(old(out)@) + account_details_lines(account@),
{
    let mut l1 = String::from_str("     Account: ");
    l1.append(account.number.as_str());
    proof {
        lemma_views_push(out@, l1);
    }
    out.push(l1);

    let n = account.transactions.len();
    let mut l2 = String::from_str("Transactions: ");
    let count = dec_string(n as u128);
    l2.append(count.as_str());
    proof {
        lemma_views_push(out@, l2);
    }
    out.push(l2);

    if n > 0 {
        let mut l3 = String::from_str("      Period: ");
        l3.append(account.transactions[0].entry_date.as_str());
        l3.append(" - ");
        l3.append(account.transactions[n - 1].entry_date.as_str());
        proof {
            assert(account@.transactions.first() == account.transactions@[0]@);
            assert(account@.transactions.last() == account.transactions@[n - 1]@);
            lemma_views_push(out@, l3);
        }
        out.push(l3);
        proof {
            assert(views(out@) =~= views(old(out)@) + account_details_lines(account@));
        }
    } else {
        proof {
            assert(views(out@) =~= views(old(out)@) + account_details_lines(account@));
        }
    }
}

/// The three numeric lines of a summary: income with its sign, expenses
/// with a literal minus, and the emphasized profit.
pub open spec fn summary_lines(st: Style, s: SummaryView) -> Seq<Seq<char>> {
    seq![
        "      Income: "@ + signed_cents_str(s.income),
        "    Expenses: -"@ + cents_str(s.expenses),
        "      "@ + underline_spec(st, "Profit: "@ + signed_cents_str(s.income - s.expenses)),
    ]
}

/// Appends the three lines of `summary`.
pub fn print_summary(out: &mut Vec<String>, style: Style, summary: &Summary)
    requires
        summary_wf(summary@),
    ensures
        views(final(out)@) == views(old(out)@) + summary_lines(style, summary@),
{
    let mut l1 = String::from_str("      Income: ");
    let inc = signed_cents_string(summary.income);
    l1.append(inc.as_str());
    proof {
        lemma_views_push(out@, l1);
    }
    out.push(l1);

    let mut l2 = String::from_str("    Expenses: -");
    let exp = cents_string(summary.expenses as u128);
    l2.append(exp.as_str());
    proof {
        lemma_views_push(out@, l2);
    }
    out.push(l2);

    let profit = summary.profit();
    let mut ptext = String::from_str("Profit: ");
    let pval = signed_cents_string(profit);
    ptext.append(pval.as_str());
    let mut l3 = String::from_str("      ");
    let u = underline(style, ptext.as_str());
    l3.append(u.as_str());
    proof {
        lemma_views_push(out@, l3);
    }
    out.push(l3);
    proof {
        assert(views(out@) =~= views(old(out)@) + summary_lines(style, summary@));
    }
}

/// Appends the account-summary section and returns the account's summary.
pub fn print_summary_account(out: &mut Vec<String>, style: Style, account: &Account) -> (s:
    Summary)
    requires
        account_wf(account@),
    ensures
        s@.income == sum_income(account@.transactions),
        s@.expenses == sum_expenses(account@.transactions),
        summary_wf(s@),
        views(final(out)@) == views(old(out)@) + seq![
            underline_spec(style, "Summary:"@),
            Seq::<char>::empty(),
        ] + summary_lines(style, s@),
{
    let head = underline(style, "Summary:");
    proof {
        lemma_views_push(out@, head);
    }
    out.push(head);
    let blank = String::new();
    proof {
        lemma_views_push(out@, blank);
    }
    out.push(blank);

    let ghost ts = account@.transactions;
    let n_txns = account.transactions.len();
    proof {
        assert(n_txns == ts.len());
    }
    let income = account.sum(
        (|t: &Transaction| -> (b: bool)
            ensures
                b == (t@.amount > 0),
            { t.amount > 0 }),
        Ghost(|tv: TransactionView| tv.amount > 0),
    );
    let negs = account.sum(
        (|t: &Transaction| -> (b: bool)
            ensures
                b == (t@.amount < 0),
            { t.amount < 0 }),
        Ghost(|tv: TransactionView| tv.amount < 0),
    );
    proof {
        crate::account::lemma_sum_if_sign(ts, |tv: TransactionView| tv.amount > 0);
        crate::account::lemma_sum_if_sign(ts, |tv: TransactionView| tv.amount < 0);
        assert forall|i: int|
            0 <= i < ts.len() implies -(AMOUNT_LIMIT as int) <= (#[trigger] ts[i]).amount
            <= AMOUNT_LIMIT as int by {
            assert(txn_wf(account@.transactions[i]));
        }
        crate::account::lemma_sum_if_bound(ts, |tv: TransactionView| tv.amount < 0);
        assert(ts.len() * AMOUNT_LIMIT as int <= u64::MAX as int * AMOUNT_LIMIT as int)
            by (nonlinear_arith)
            requires
                ts.len() <= u64::MAX as int,
        ;
    }
    let s = Summary { income, expenses: -negs };
    print_summary(out, style, &s);
    proof {
        assert(views(out@) =~= views(old(out)@) + seq![
            underline_spec(style, "Summary:"@),
            Seq::<char>::empty(),
        ] + summary_lines(style, s@));
    }
    s
}

/// Income within a month: the sum of the month's positive amounts.
pub open spec fn month_sum_income(ts: Seq<TransactionView>, m: Seq<char>) -> int {
    sum_if(ts, |t: TransactionView| t.month == m && t.amount > 0)
}

/// Expenses within a month: the magnitude of the sum of the month's
/// negative amounts — over all of them, regardless of the display cap.
pub open spec fn month_sum_expenses(ts: Seq<TransactionView>, m: Seq<char>) -> int {
    -sum_if(ts, |t: TransactionView| t.month == m && t.amount < 0)
}

/// Computes a month's summary from the full transaction list.
pub fn month_summary(account: &Account, month: &String) -> (s: Summary)
    requires
        account_wf(account@),
    ensures
        s@.income == month_sum_income(account@.transactions, month@),
        s@.expenses == month_sum_expenses(account@.transactions, month@),
        summary_wf(s@),
{
    let ghost ts = account@.transactions;
    let n_txns = account.transactions.len();
    proof {
        assert(n_txns == ts.len());
    }
    let income = account.sum(
        (|t: &Transaction| -> (b: bool)
            ensures
                b == (t@.month == month@ && t@.amount > 0),
            {
                if t.amount > 0 {
                    str_eq(t.month.as_str(), month.as_str())
                } else {
                    false
                }
            }),
        Ghost(|tv: TransactionView| tv.month == month@ && tv.amount > 0),
    );
    let negs = account.sum(
        (|t: &Transaction| -> (b: bool)
            ensures
                b == (t@.month == month@ && t@.amount < 0),
            {
                if t.amount < 0 {
                    str_eq(t.month.as_str(), month.as_str())
                } else {
                    false
                }
            }),
        Ghost(|tv: TransactionView| tv.month == month@ && tv.amount < 0),
    );
    proof {
        crate::account::lemma_sum_if_sign(
            ts,
            |tv: TransactionView| tv.month == month@ && tv.amount > 0,
        );
        crate::account::lemma_sum_if_sign(
            ts,
            |tv: TransactionView| tv.month == month@ && tv.amount < 0,
        );
        assert forall|i: int|
            0 <= i < ts.len() implies -(AMOUNT_LIMIT as int) <= (#[trigger] ts[i]).amount
            <= AMOUNT_LIMIT as int by {
            assert(txn_wf(account@.transactions[i]));
        }
        crate::account::lemma_sum_if_bound(
            ts,
            |tv: TransactionView| tv.month == month@ && tv.amount < 0,
        );
        assert(ts.len() * AMOUNT_LIMIT as int <= u64::MAX as int * AMOUNT_LIMIT as int)
            by (nonlinear_arith)
            requires
                ts.len() <= u64::MAX as int,
        ;
    }
    Summary { income, expenses: -negs }
}

/// Whether `m` is the month key of some transaction.
pub open spec fn month_present(ts: Seq<TransactionView>, m: Seq<char>) -> bool {
    exists|i: int| 0 <= i < ts.len() && (#[trigger] ts[i]).month == m
}

/// A month's display rows: the strictly sorted arrangement of exactly the
/// indices of the month's transactions.
pub open spec fn rows_ok(ts: Seq<TransactionView>, m: Seq<char>, rows: Seq<int>) -> bool {
    &&& forall|k: int| 0 <= k < rows.len() ==> 0 <= #[trigger] rows[k] < ts.len()
    &&& forall|k: int, l: int| 0 <= k < l < rows.len() ==> row_lt(ts, rows[k], rows[l])
    &&& forall|i: int| 0 <= i < ts.len() ==> (rows.contains(i) <==> (#[trigger] ts[i]).month == m)
}

/// Collects and sorts a month's transaction indices.
fn month_rows(account: &Account, month: &String) -> (rows: Vec<usize>)
    ensures
        rows_ok(account@.transactions, month@, rows@.map_values(|x: usize| x as int)),
{
    let ghost ts = account@.transactions;
    let n = account.transactions.len();
    let mut matching: Vec<usize> = Vec::new();
    let mut i: usize = 0;
    while i < n
        invariant
            i <= n,
            n == ts.len(),
            ts == account@.transactions,
            forall|k: int| 0 <= k < matching@.len() ==> (#[trigger] matching@[k]) < i,
            forall|k: int, l: int|
                0 <= k < l < matching@.len() ==> matching@[k] < matching@[l],
            forall|x: usize|
                matching@.contains(x) <==> ((x as int) < i && ts[x as int].month == month@),
        decreases n - i,
    {
        let t = &account.transactions[i];
        proof {
            assert(t@ == ts[i as int]);
        }
        if str_eq(t.month.as_str(), month.as_str()) {
            let ghost before = matching@;
            matching.push(i);
            proof {
                assert forall|x: usize|
                    matching@.contains(x) <==> ((x as int) < i + 1 && ts[x as int].month
                        == month@) by {
                    lemma_push_contains(before, i, x);
                }
            }
        } else {
            proof {
                assert forall|x: usize|
                    matching@.contains(x) <==> ((x as int) < i + 1 && ts[x as int].month
                        == month@) by {}
            }
        }
        i += 1;
    }
    let rows = sort_rows(&account.transactions, &matching);
    proof {
        let rv = rows@.map_values(|x: usize| x as int);
        assert forall|i2: int|
            0 <= i2 < ts.len() implies (rv.contains(i2) <==> (#[trigger] ts[i2]).month
            == month@) by {
            if rv.contains(i2) {
                let k = choose|k: int| 0 <= k < rv.len() && rv[k] == i2;
                assert(rows@.contains(rows@[k]));
                assert(matching@.contains(rows@[k]));
            }
            if ts[i2].month == month@ {
                assert(matching@.contains(i2 as usize));
                assert(rows@.contains(i2 as usize));
                let k = choose|k: int| 0 <= k < rows@.len() && rows@[k] == i2 as usize;
                assert(rv[k] == i2);
            }
        }
        assert forall|k: int, l: int| 0 <= k < l < rv.len() implies row_lt(ts, rv[k], rv[l]) by {
            assert(row_lt(ts, rows@[k] as int, rows@[l] as int));
        }
        assert(rows_ok(ts, month@, rv));
    }
    rows
}

/// The display's month list: strictly sorted ascending, holding exactly the
/// months present in the transactions.
pub open spec fn months_ok(ts: Seq<TransactionView>, months: Seq<Seq<char>>) -> bool {
    &&& forall|k: int, l: int| 0 <= k < l < months.len() ==> lex_lt(months[k], months[l])
    &&& forall|m: Seq<char>| #[trigger] months.contains(m) <==> month_present(ts, m)
}

/// Collects the distinct months and sorts them ascending.
fn month_list(account: &Account) -> (months: Vec<String>)
    ensures
        months_ok(account@.transactions, views(months@)),
{
    let ghost ts = account@.transactions;
    let n = account.transactions.len();
    let mut distinct: Vec<String> = Vec::new();
    let mut i: usize = 0;
    while i < n
        invariant
            i <= n,
            n == ts.len(),
            ts == account@.transactions,
            forall|k: int, l: int| 0 <= k < l < distinct@.len() ==> distinct@[k]@ != distinct@[l]@,
            forall|m: Seq<char>|
                #[trigger] views(distinct@).contains(m) <==> (exists|j: int|
                    0 <= j < i && (#[trigger] ts[j]).month == m),
        decreases n - i,
    {
        let t = &account.transactions[i];
        proof {
            assert(t@ == ts[i as int]);
        }
        let mut found = false;
        let mut j: usize = 0;
        let dn = distinct.len();
        while j < dn
            invariant
                j <= dn,
                dn == distinct@.len(),
                t@ == ts[i as int],
                i < n,
                n == ts.len(),
                ts == account@.transactions,
                found <==> exists|l: int| 0 <= l < j && (#[trigger] distinct@[l])@ == t@.month,
            decreases dn - j,
        {
            if str_eq(distinct[j].as_str(), t.month.as_str()) {
                found = true;
                proof {
                    assert(0 <= j < j + 1 && distinct@[j as int]@ == t@.month);
                }
            }
            j += 1;
        }
        let ghost before = distinct@;
        if !found {
            let owned = t.month.clone();
            distinct.push(owned);
        }
        proof {
            assert forall|m: Seq<char>|
                #[trigger] views(distinct@).contains(m) <==> (exists|j2: int|
                    0 <= j2 < i + 1 && (#[trigger] ts[j2]).month == m) by {
                if distinct@ == before {
                    if views(distinct@).contains(m) {
                        let l = choose|l: int|
                            0 <= l < views(before).len() && views(before)[l] == m;
                        assert(before[l]@ == m);
                    }
                    if ts[i as int].month == m {
                        assert(found);
                        let l = choose|l: int|
                            0 <= l < before.len() && (#[trigger] before[l])@ == m;
                        assert(views(before)[l] == m);
                    }
                } else {
                    crate::text::lemma_views_push(before, distinct@.last());
                    lemma_push_contains(views(before), distinct@.last()@, m);
                }
            }
        }
        i += 1;
    }
    proof {
        assert forall|m: Seq<char>|
            #[trigger] views(distinct@).contains(m) <==> month_present(ts, m) by {}
    }

    // Insertion sort into ascending lexicographic order.
    let dn = distinct.len();
    let mut months: Vec<String> = Vec::new();
    let mut i2: usize = 0;
    while i2 < dn
        invariant
            i2 <= dn,
            dn == distinct@.len(),
            ts == account@.transactions,
            forall|k: int, l: int| 0 <= k < l < distinct@.len() ==> distinct@[k]@ != distinct@[l]@,
            forall|m: Seq<char>| #[trigger] views(distinct@).contains(m) <==> month_present(ts, m),
            months@.len() == i2,
            forall|k: int, l: int|
                0 <= k < l < months@.len() ==> lex_lt(views(months@)[k], views(months@)[l]),
            forall|m: Seq<char>|
                #[trigger] views(months@).contains(m) <==> views(distinct@.take(i2 as int)).contains(
                    m,
                ),
        decreases dn - i2,
    {
        let x = distinct[i2].clone();
        proof {
            if views(months@).contains(x@) {
                assert(views(distinct@.take(i2 as int)).contains(x@));
                let l = choose|l: int|
                    0 <= l < i2 && views(distinct@.take(i2 as int))[l] == x@;
                assert(distinct@[l]@ == distinct@[i2 as int]@);
                assert(false);
            }
        }
        let mut j: usize = 0;
        loop
            invariant
                j <= months@.len(),
                months@.len() == i2,
                x@ == distinct@[i2 as int]@,
                i2 < dn,
                dn == distinct@.len(),
                !views(months@).contains(x@),
                forall|k: int, l: int|
                    0 <= k < l < months@.len() ==> lex_lt(views(months@)[k], views(months@)[l]),
                forall|k: int| 0 <= k < j ==> lex_lt(views(months@)[k], x@),
            ensures
                j <= months@.len(),
                forall|k: int| 0 <= k < j ==> lex_lt(views(months@)[k], x@),
                j < months@.len() ==> lex_lt(x@, views(months@)[j as int]),
            decreases months@.len() - j,
        {
            if j >= months.len() {
                break;
            }
            if crate::text::str_lt(x.as_str(), months[j].as_str()) {
                break;
            }
            proof {
                assert(months@[j as int]@ != x@) by {
                    if months@[j as int]@ == x@ {
                        assert(views(months@)[j as int] == x@);
                        assert(views(months@).contains(x@));
                    }
                }
                crate::text::lemma_lex_lt_total(x@, months@[j as int]@);
                assert(views(months@)[j as int] == months@[j as int]@);
            }
            j += 1;
        }
        let ghost old_months = months@;
        months.insert(j, x);
        proof {
            crate::text::lemma_views_insert(old_months, j as int, months@[j as int]);
            let ov = views(old_months);
            let nv = views(months@);
            assert(nv == ov.insert(j as int, distinct@[i2 as int]@));
            ov.insert_ensures(j as int, distinct@[i2 as int]@);
            assert forall|k: int, l: int| 0 <= k < l < nv.len() implies lex_lt(nv[k], nv[l]) by {
                if l < j {
                } else if l == j {
                } else if k == j {
                    if l - 1 > j {
                        crate::text::lemma_lex_lt_transitive(nv[k], ov[j as int], ov[l - 1]);
                    }
                } else if k < j {
                    if k == l - 1 {
                        assert(lex_lt(ov[k], nv[j as int]));
                        assert(false);
                    }
                } else {
                }
            }
            assert forall|m: Seq<char>|
                #[trigger] nv.contains(m) <==> views(distinct@.take(i2 + 1)).contains(m) by {
                crate::sort::lemma_insert_contains(ov, j as int, distinct@[i2 as int]@, m);
                assert(distinct@.take(i2 + 1).drop_last() =~= distinct@.take(i2 as int));
                assert(distinct@.take(i2 + 1) =~= distinct@.take(i2 as int).push(
                    distinct@[i2 as int],
                ));
                crate::text::lemma_views_push(distinct@.take(i2 as int), distinct@[i2 as int]);
                lemma_push_contains(
                    views(distinct@.take(i2 as int)),
                    distinct@[i2 as int]@,
                    m,
                );
            }
        }
        i2 += 1;
    }
    proof {
        assert(distinct@.take(dn as int) =~= distinct@);
        assert(months_ok(ts, views(months@)));
    }
    months
}

/// The income lines of a month: every income among the sorted rows, in
/// reverse order (largest income first).
pub open spec fn income_lines(ts: Seq<TransactionView>, rows: Seq<int>) -> Seq<Seq<char>>
    decreases rows.len(),
{
    if rows.len() == 0 {
        Seq::empty()
    } else {
        income_lines(ts, rows.drop_first()) + (if ts[rows.first()].amount > 0 {
            seq![txn_line(ts[rows.first()])]
        } else {
            Seq::<Seq<char>>::empty()
        })
    }
}

/// The expense lines of a month: the expenses among the sorted rows in
/// order (largest magnitude first), only the first `budget` of them.
pub open spec fn expense_lines(ts: Seq<TransactionView>, rows: Seq<int>, budget: int) -> Seq<
    Seq<char>,
>
    decreases rows.len(),
{
    if rows.len() == 0 {
        Seq::empty()
    } else if ts[rows.first()].amount < 0 {
        if budget > 0 {
            seq![txn_line(ts[rows.first()])] + expense_lines(ts, rows.drop_first(), budget - 1)
        } else {
            Seq::empty()
        }
    } else {
        expense_lines(ts, rows.drop_first(), budget)
    }
}

/// With no budget left, no expense line is printed.
pub proof fn lemma_expense_lines_empty(ts: Seq<TransactionView>, rows: Seq<int>, budget: int)
    requires
        budget <= 0,
    ensures
        expense_lines(ts, rows, budget) == Seq::<Seq<char>>::empty(),
    decreases rows.len(),
{
    if rows.len() > 0 && !(ts[rows.first()].amount < 0) {
        lemma_expense_lines_empty(ts, rows.drop_first(), budget);
    }
}

/// One month's block: blank line, emphasized month heading, income lines,
/// a blank line when the month had income, up to `TOP_EXPENSES` expense
/// lines, a blank line, and the month's summary over all its transactions.
#[verifier::opaque]
pub open spec fn month_block(
    st: Style,
    ts: Seq<TransactionView>,
    m: Seq<char>,
    rows: Seq<int>,
) -> Seq<Seq<char>> {
    seq![Seq::<char>::empty(), "    "@ + bold_spec(st, m + ":"@)] + income_lines(ts, rows) + (
    if month_sum_income(ts, m) > 0 {
        seq![Seq::<char>::empty()]
    } else {
        Seq::<Seq<char>>::empty()
    }) + expense_lines(ts, rows, TOP_EXPENSES as int) + seq![Seq::<char>::empty()]
        + summary_lines(
        st,
        SummaryView { income: month_sum_income(ts, m), expenses: month_sum_expenses(ts, m) },
    )
}

/// Valid display rows for every month of the list.
pub open spec fn rowss_ok(
    ts: Seq<TransactionView>,
    months: Seq<Seq<char>>,
    rowss: Seq<Seq<int>>,
) -> bool {
    &&& rowss.len() == months.len()
    &&& forall|k: int| 0 <= k < months.len() ==> rows_ok(ts, months[k], #[trigger] rowss[k])
}

/// The blocks of the given months, most recent month key first.
pub open spec fn months_section(
    st: Style,
    ts: Seq<TransactionView>,
    months: Seq<Seq<char>>,
    rowss: Seq<Seq<int>>,
) -> Seq<Seq<char>>
    decreases months.len(),
{
    if months.len() == 0 {
        Seq::empty()
    } else {
        month_block(st, ts, months.last(), rowss.last()) + months_section(
            st,
            ts,
            months.drop_last(),
            rowss.drop_last(),
        )
    }
}

/// Prepending a month to the list appends its block to the section.
proof fn lemma_months_section_step(
    st: Style,
    ts: Seq<TransactionView>,
    months: Seq<Seq<char>>,
    rowss: Seq<Seq<int>>,
    m0: Seq<char>,
    r0: Seq<int>,
)
    requires
        months.len() == rowss.len(),
    ensures
        months_section(st, ts, seq![m0] + months, seq![r0] + rowss) == months_section(
            st,
            ts,
            months,
            rowss,
        ) + month_block(st, ts, m0, r0),
    decreases months.len(),
{
    let em = seq![m0] + months;
    let er = seq![r0] + rowss;
    if months.len() == 0 {
        assert(em.last() == m0 && er.last() == r0);
        assert(em.drop_last() =~= Seq::<Seq<char>>::empty());
        assert(er.drop_last() =~= Seq::<Seq<int>>::empty());
        assert(months_section(st, ts, em.drop_last(), er.drop_last())
            == Seq::<Seq<char>>::empty());
        assert(months_section(st, ts, months, rowss) == Seq::<Seq<char>>::empty());
        assert(months_section(st, ts, em, er) =~= months_section(st, ts, months, rowss)
            + month_block(st, ts, m0, r0));
    } else {
        assert(em.last() == months.last() && er.last() == rowss.last());
        assert(em.drop_last() =~= seq![m0] + months.drop_last());
        assert(er.drop_last() =~= seq![r0] + rowss.drop_last());
        lemma_months_section_step(st, ts, months.drop_last(), rowss.drop_last(), m0, r0);
        assert(months_section(st, ts, em, er) =~= months_section(st, ts, months, rowss)
            + month_block(st, ts, m0, r0));
    }
}

/// Renders the months section: the heading, then one block per month, most
/// recent month key first.
#[verifier::rlimit(60)]
pub fn print_months(out: &mut Vec<String>, style: Style, account: &Account)
    requires
        account_wf(account@),
    ensures
        exists|months: Seq<Seq<char>>, rowss: Seq<Seq<int>>|
            {
                &&& #[trigger] months_ok(account@.transactions, months)
                &&& #[trigger] rowss_ok(account@.transactions, months, rowss)
                &&& views(final(out)@) == views(old(out)@) + seq![
                    underline_spec(style, "Months:"@),
                ] + months_section(style, account@.transactions, months, rowss)
            },
{
    let ghost ts = account@.transactions;
    let head = underline(style, "Months:");
    proof {
        lemma_views_push(out@, head);
    }
    out.push(head);
    let ghost base = views(out@);
    proof {
        assert(base =~= views(old(out)@) + seq![underline_spec(style, "Months:"@)]);
    }

    let months = month_list(account);
    let ghost mv = views(months@);
    let ghost mut rowss: Seq<Seq<int>> = Seq::empty();
    let mut k = months.len();
    proof {
        assert(mv.skip(k as int) =~= Seq::<Seq<char>>::empty());
    }
    while k > 0
        invariant
            k <= months@.len(),
            mv == views(months@),
            ts == account@.transactions,
            account_wf(account@),
            months_ok(ts, mv),
            rowss.len() == mv.len() - k,
            forall|l: int| 0 <= l < rowss.len() ==> rows_ok(ts, mv[k + l], #[trigger] rowss[l]),
            views(out@) == base + months_section(style, ts, mv.skip(k as int), rowss),
        decreases k,
    {
        k -= 1;
        let m = &months[k];
        proof {
            assert(m@ == mv[k as int]);
        }
        let s = month_summary(account, m);
        let rows = month_rows(account, m);
        let ghost rv = rows@.map_values(|x: usize| x as int);
        let nrows = rows.len();
        let ghost block_start = views(out@);

        let blank = String::new();
        proof {
            lemma_views_push(out@, blank);
        }
        out.push(blank);
        let mut heading = String::from_str("    ");
        let mut mh = m.clone();
        mh.append(":");
        let bolded = bold(style, mh.as_str());
        heading.append(bolded.as_str());
        proof {
            reveal_strlit(":");
            reveal_strlit("    ");
            assert(heading@ =~= "    "@ + bold_spec(style, mv[k as int] + ":"@));
            lemma_views_push(out@, heading);
        }
        out.push(heading);
        let ghost base_inc = views(out@);

        // Income transactions, in reverse sorted order.
        let mut j = nrows;
        proof {
            assert(rv.skip(j as int) =~= Seq::<int>::empty());
        }
        while j > 0
            invariant
                j <= nrows,
                nrows == rows@.len(),
                rv == rows@.map_values(|x: usize| x as int),
                ts == account@.transactions,
                account_wf(account@),
                rows_ok(ts, mv[k as int], rv),
                k < mv.len(),
                mv == views(months@),
                views(out@) == base_inc + income_lines(ts, rv.skip(j as int)),
            decreases j,
        {
            j -= 1;
            let ridx = rows[j];
            proof {
                assert(rv[j as int] == ridx as int);
                assert(0 <= rv[j as int] < ts.len());
                assert(account.transactions@[ridx as int]@ == ts[ridx as int]);
                assert(txn_wf(ts[ridx as int]));
                assert(rv.skip(j as int).drop_first() =~= rv.skip(j + 1));
                assert(rv.skip(j as int).first() == rv[j as int]);
            }
            let t = &account.transactions[ridx];
            if t.amount > 0 {
                t.print(out);
            }
            proof {
                assert(views(out@) =~= base_inc + income_lines(ts, rv.skip(j as int)));
            }
        }
        proof {
            assert(rv.skip(0) =~= rv);
        }

        // Blank line when the month had income.
        if s.income > 0 {
            let blank2 = String::new();
            proof {
                lemma_views_push(out@, blank2);
            }
            out.push(blank2);
        }
        let ghost base_exp = views(out@);
        proof {
            assert(base_exp == base_inc + income_lines(ts, rv) + (if month_sum_income(
                ts,
                mv[k as int],
            ) > 0 {
                seq![Seq::<char>::empty()]
            } else {
                Seq::<Seq<char>>::empty()
            }));
        }

        // Expense transactions: all contribute to the total, only the first
        // TOP_EXPENSES are printed.
        let mut printed: usize = 0;
        let mut j2: usize = 0;
        proof {
            assert(rv.skip(0) =~= rv);
        }
        while j2 < nrows
            invariant
                j2 <= nrows,
                printed <= TOP_EXPENSES,
                nrows == rows@.len(),
                rv == rows@.map_values(|x: usize| x as int),
                ts == account@.transactions,
                account_wf(account@),
                rows_ok(ts, mv[k as int], rv),
                k < mv.len(),
                mv == views(months@),
                base_exp + expense_lines(ts, rv, TOP_EXPENSES as int) == views(out@)
                    + expense_lines(ts, rv.skip(j2 as int), TOP_EXPENSES - printed),
            decreases nrows - j2,
        {
            let ridx = rows[j2];
            proof {
                assert(rv[j2 as int] == ridx as int);
                assert(0 <= rv[j2 as int] < ts.len());
                assert(account.transactions@[ridx as int]@ == ts[ridx as int]);
                assert(txn_wf(ts[ridx as int]));
                assert(rv.skip(j2 as int).drop_first() =~= rv.skip(j2 + 1));
                assert(rv.skip(j2 as int).first() == rv[j2 as int]);
            }
            let t = &account.transactions[ridx];
            if t.amount < 0 {
                if printed < TOP_EXPENSES {
                    t.print(out);
                    printed += 1;
                } else {
                    proof {
                        lemma_expense_lines_empty(ts, rv.skip(j2 as int), 0);
                        lemma_expense_lines_empty(ts, rv.skip(j2 + 1), 0);
                    }
                }
            }
            proof {
                assert(base_exp + expense_lines(ts, rv, TOP_EXPENSES as int) =~= views(out@)
                    + expense_lines(ts, rv.skip(j2 + 1), TOP_EXPENSES - printed));
            }
            j2 += 1;
        }
        proof {
            assert(rv.skip(nrows as int) =~= Seq::<int>::empty());
            assert(views(out@) == base_exp + expense_lines(ts, rv, TOP_EXPENSES as int));
        }

        let blank3 = String::new();
        proof {
            lemma_views_push(out@, blank3);
        }
        out.push(blank3);
        print_summary(out, style, &s);
        proof {
            assert(s@ == (SummaryView {
                income: month_sum_income(ts, mv[k as int]),
                expenses: month_sum_expenses(ts, mv[k as int]),
            }));
            assert(views(out@) =~= block_start + month_block(style, ts, mv[k as int], rv)) by {
                reveal(month_block);
            }
            let ghost old_rowss = rowss;
            rowss = seq![rv] + rowss;
            assert(mv.skip(k as int) =~= seq![mv[k as int]] + mv.skip(k + 1));
            lemma_months_section_step(
                style,
                ts,
                mv.skip(k + 1),
                old_rowss,
                mv[k as int],
                rv,
            );
            assert(views(out@) =~= base + months_section(style, ts, mv.skip(k as int), rowss));
            assert forall|l: int|
                0 <= l < rowss.len() implies rows_ok(ts, mv[k + l], #[trigger] rowss[l]) by {
                if l > 0 {
                    assert(rowss[l] == old_rowss[l - 1]);
                }
            }
        }
    }
    proof {
        assert(mv.skip(0) =~= mv);
        assert(views(out@) == base + months_section(style, ts, mv, rowss));
        assert(views(out@) =~= views(old(out)@) + seq![underline_spec(style, "Months:"@)]
            + months_section(style, ts, mv, rowss));
        assert(rowss_ok(ts, mv, rowss));
    }
}

/// Along a month's display rows the amounts never descend.  The income
/// lines walk the rows backwards, so incomes display with the largest
/// amount first; the expense lines walk them forwards, so expenses display
/// with the largest magnitude first.  The month's summary is computed from
/// the full transaction list, never from the capped display.
pub proof fn lemma_month_display_order(ts: Seq<TransactionView>, m: Seq<char>, rows: Seq<int>)
    requires
        rows_ok(ts, m, rows),
    ensures
        forall|k: int, l: int|
            0 <= k < l < rows.len() ==> ts[#[trigger] rows[k]].amount <= ts[#[trigger] rows[l]].amount,
{
    assert forall|k: int, l: int|
        0 <= k < l < rows.len() implies ts[#[trigger] rows[k]].amount
        <= ts[#[trigger] rows[l]].amount by {
        assert(row_lt(ts, rows[k], rows[l]));
    }
}

/// A month prints at most `budget` expense rows.
pub proof fn lemma_expense_lines_capped(ts: Seq<TransactionView>, rows: Seq<int>, budget: int)
    requires
        budget >= 0,
    ensures
        expense_lines(ts, rows, budget).len() <= budget,
    decreases rows.len(),
{
    if rows.len() > 0 {
        if ts[rows.first()].amount < 0 {
            if budget > 0 {
                lemma_expense_lines_capped(ts, rows.drop_first(), budget - 1);
            }
        } else {
            lemma_expense_lines_capped(ts, rows.drop_first(), budget);
        }
    }
}

/// An account with no transactions has zero income, expenses and profit,
/// an empty months section, and an empty recurrent-payments section.
pub proof fn lemma_empty_account(
    ts: Seq<TransactionView>,
    months: Seq<Seq<char>>,
    gs: Seq<RecurrentPaymentView>,
)
    requires
        ts.len() == 0,
        months_ok(ts, months),
        groups_ok(ts, gs),
    ensures
        sum_income(ts) == 0,
        sum_expenses(ts) == 0,
        months.len() == 0,
        gs.len() == 0,
{
    if months.len() > 0 {
        assert(months.contains(months[0]));
        assert(month_present(ts, months[0]));
        assert(false);
    }
    if gs.len() > 0 {
        assert(crate::recurrent::group_ok(ts, gs[0]));
        assert(crate::recurrent::is_recurrent(ts, gs[0].key));
        assert(false);
    }
}

/// Only one month list satisfies `months_ok`: the displayed months are a
/// function of the account alone.
pub proof fn lemma_months_pinned(
    ts: Seq<TransactionView>,
    m1: Seq<Seq<char>>,
    m2: Seq<Seq<char>>,
)
    requires
        months_ok(ts, m1),
        months_ok(ts, m2),
    ensures
        m1 == m2,
{
    assert forall|x: Seq<char>, y: Seq<char>| !(lex_lt(x, y) && #[trigger] lex_lt(y, x)) by {
        crate::text::lemma_lex_lt_asymmetric(x, y);
    }
    assert forall|x: Seq<char>| !#[trigger] lex_lt(x, x) by {
        crate::text::lemma_lex_lt_asymmetric(x, x);
    }
    crate::sort::lemma_sorted_unique(m1, m2, |x: Seq<char>, y: Seq<char>| lex_lt(x, y));
}

/// Only one row list satisfies `rows_ok` for a month: the displayed rows
/// are a function of the account and the month alone.
pub proof fn lemma_month_rows_pinned(
    ts: Seq<TransactionView>,
    m: Seq<char>,
    r1: Seq<int>,
    r2: Seq<int>,
)
    requires
        rows_ok(ts, m, r1),
        rows_ok(ts, m, r2),
    ensures
        r1 == r2,
{
    assert forall|x: int, y: int| !(row_lt(ts, x, y) && #[trigger] row_lt(ts, y, x)) by {
        crate::text::lemma_lex_lt_asymmetric(ts[x].entry_date, ts[y].entry_date);
    }
    assert forall|x: int| !#[trigger] row_lt(ts, x, x) by {
        crate::text::lemma_lex_lt_asymmetric(ts[x].entry_date, ts[x].entry_date);
    }
    assert forall|x: int| r1.contains(x) <==> r2.contains(x) by {
        if r1.contains(x) {
            let k = choose|k: int| 0 <= k < r1.len() && r1[k] == x;
            assert(0 <= x < ts.len());
            assert(ts[x].month == m);
            assert(r2.contains(x));
        }
        if r2.contains(x) {
            let k = choose|k: int| 0 <= k < r2.len() && r2[k] == x;
            assert(0 <= x < ts.len());
            assert(ts[x].month == m);
            assert(r1.contains(x));
        }
    }
    crate::sort::lemma_sorted_unique(r1, r2, |x: int, y: int| row_lt(ts, x, y));
}

/// One export file handed to the driver: a display name and the file's
/// lines.
pub struct InputFile {
    pub name: String,
    pub lines: Vec<String>,
}

/// The mathematical value of an [`InputFile`].
pub struct InputFileView {
    pub name: Seq<char>,
    pub lines: Seq<Seq<char>>,
}

impl View for InputFile {
    type V = InputFileView;

    open spec fn view(&self) -> InputFileView {
        InputFileView { name: self.name@, lines: views(self.lines@) }
    }
}

/// The summary of a parsed account.
pub open spec fn file_summary(a: AccountView) -> SummaryView {
    SummaryView { income: sum_income(a.transactions), expenses: sum_expenses(a.transactions) }
}

/// The lines one account's report holds after the progress line, given its
/// months, their rows, and its groups with their display order: separators
/// and the four sections, in order.
#[verifier::opaque]
pub open spec fn report_lines(
    st: Style,
    a: AccountView,
    months: Seq<Seq<char>>,
    rowss: Seq<Seq<int>>,
    gs: Seq<RecurrentPaymentView>,
    order: Seq<int>,
) -> Seq<Seq<char>> {
    seq![Seq::<char>::empty(), Seq::<char>::empty()] + account_details_lines(a) + seq![
        Seq::<char>::empty(),
        Seq::<char>::empty(),
    ] + seq![underline_spec(st, "Summary:"@), Seq::<char>::empty()] + summary_lines(
        st,
        file_summary(a),
    ) + seq![Seq::<char>::empty(), Seq::<char>::empty()] + seq![underline_spec(st, "Months:"@)]
        + months_section(st, a.transactions, months, rowss) + seq![
        Seq::<char>::empty(),
        Seq::<char>::empty(),
    ] + seq![underline_spec(st, "Recurrent payments:"@), Seq::<char>::empty()] + groups_lines(
        st,
        a.transactions,
        gs,
        order,
        max_key_len(gs),
    )
}

/// The lines one account's report adds to the output after the progress
/// line.
pub open spec fn report_ok(st: Style, a: AccountView, added: Seq<Seq<char>>) -> bool {
    exists|months: Seq<Seq<char>>, rowss: Seq<Seq<int>>, gs: Seq<RecurrentPaymentView>, order: Seq<
        int,
    >|
        {
            &&& #[trigger] months_ok(a.transactions, months)
            &&& #[trigger] rowss_ok(a.transactions, months, rowss)
            &&& #[trigger] groups_ok(a.transactions, gs)
            &&& #[trigger] order_ok(gs, order)
            &&& added == report_lines(st, a, months, rowss, gs, order)
        }
}

/// Only one line sequence satisfies `report_ok` for an account: the whole
/// rendered report is a function of the account and the style alone.
pub proof fn lemma_report_pinned(
    st: Style,
    a: AccountView,
    x: Seq<Seq<char>>,
    y: Seq<Seq<char>>,
)
    requires
        report_ok(st, a, x),
        report_ok(st, a, y),
    ensures
        x == y,
{
    let (m1, rs1, gs1, o1) = choose|
        months: Seq<Seq<char>>,
        rowss: Seq<Seq<int>>,
        gs: Seq<RecurrentPaymentView>,
        order: Seq<int>,
    |
        {
            &&& #[trigger] months_ok(a.transactions, months)
            &&& #[trigger] rowss_ok(a.transactions, months, rowss)
            &&& #[trigger] groups_ok(a.transactions, gs)
            &&& #[trigger] order_ok(gs, order)
            &&& x == report_lines(st, a, months, rowss, gs, order)
        };
    let (m2, rs2, gs2, o2) = choose|
        months: Seq<Seq<char>>,
        rowss: Seq<Seq<int>>,
        gs: Seq<RecurrentPaymentView>,
        order: Seq<int>,
    |
        {
            &&& #[trigger] months_ok(a.transactions, months)
            &&& #[trigger] rowss_ok(a.transactions, months, rowss)
            &&& #[trigger] groups_ok(a.transactions, gs)
            &&& #[trigger] order_ok(gs, order)
            &&& y == report_lines(st, a, months, rowss, gs, order)
        };
    lemma_months_pinned(a.transactions, m1, m2);
    assert forall|k: int| 0 <= k < rs1.len() implies rs1[k] == rs2[k] by {
        lemma_month_rows_pinned(a.transactions, m1[k], rs1[k], rs2[k]);
    }
    assert(rs1 =~= rs2);
    crate::recurrent::lemma_display_groups_pinned(a.transactions, gs1, o1, gs2, o2);
    let c1 = crate::recurrent::displayed_groups(gs1, o1);
    let c2 = crate::recurrent::displayed_groups(gs2, o2);
    assert(c1.len() == o1.len() && c2.len() == o2.len());
    assert forall|k: int| 0 <= k < o1.len() implies gs1[#[trigger] o1[k]]
        == gs2[#[trigger] o2[k]] by {
        assert(c1[k] == gs1[o1[k]] && c2[k] == gs2[o2[k]]);
    }
    crate::recurrent::lemma_groups_lines_agree(
        st,
        a.transactions,
        gs1,
        o1,
        gs2,
        o2,
        max_key_len(gs1),
    );
    assert(x == y) by {
        reveal(report_lines);
    }
}

/// Processes one file: parses it and renders its report; returns the
/// account's summary, or the parse error after only the progress line.
#[verifier::rlimit(60)]
pub fn expenses_single(out: &mut Vec<String>, style: Style, file: &InputFile) -> (r: Result<
    Summary,
    ParseError,
>)
    ensures
        match r {
            Ok(s) => {
                &&& parse_spec(file@.lines) is Ok
                &&& s@ == file_summary(parse_spec(file@.lines)->Ok_0)
                &&& summary_wf(s@)
                &&& exists|added: Seq<Seq<char>>|
                    #[trigger] report_ok(style, parse_spec(file@.lines)->Ok_0, added) && views(
                        final(out)@,
                    ) == views(old(out)@) + seq![reading_line(file@.name)] + added
            },
            Err(e) => parse_spec(file@.lines) == Err::<AccountView, ParseErrorView>(e@) && views(
                final(out)@,
            ) == views(old(out)@) + seq![reading_line(file@.name)],
        },
{
    let account = match parse(out, file.name.as_str(), &file.lines) {
        Ok(a) => a,
        Err(e) => {
            proof {
                assert(views(out@) =~= views(old(out)@) + seq![reading_line(file@.name)]);
            }
            return Err(e);
        },
    };
    let ghost a = account@;
    let ghost base = views(out@);
    proof {
        assert(base =~= views(old(out)@) + seq![reading_line(file@.name)]);
    }

    print_section_separator(out);
    print_account_details(out, &account);
    print_section_separator(out);
    let summary = print_summary_account(out, style, &account);
    print_section_separator(out);
    let ghost pre_months = views(out@);
    print_months(out, style, &account);
    let ghost (months, rowss) = choose|months: Seq<Seq<char>>, rowss: Seq<Seq<int>>|
        {
            &&& #[trigger] months_ok(a.transactions, months)
            &&& #[trigger] rowss_ok(a.transactions, months, rowss)
            &&& views(out@) == pre_months + seq![underline_spec(style, "Months:"@)]
                + months_section(style, a.transactions, months, rowss)
        };
    print_section_separator(out);
    let ghost pre_rec = views(out@);
    crate::recurrent::print(out, style, &account);
    proof {
        let (gs, order) = choose|gs: Seq<RecurrentPaymentView>, order: Seq<int>|
            {
                &&& #[trigger] groups_ok(a.transactions, gs)
                &&& #[trigger] order_ok(gs, order)
                &&& views(out@) == pre_rec + seq![
                    underline_spec(style, "Recurrent payments:"@),
                    Seq::<char>::empty(),
                ] + groups_lines(style, a.transactions, gs, order, max_key_len(gs))
            };
        let added = report_lines(style, a, months, rowss, gs, order);
        assert(summary@ == file_summary(a));
        assert(views(out@) =~= views(old(out)@) + seq![reading_line(file@.name)] + added) by {
            reveal(report_lines);
        }
        assert(report_ok(style, a, added));
        assert(parse_spec(file@.lines)->Ok_0 == a);
    }
    Ok(summary)
}

/// The views of a sequence of input files.
pub open spec fn file_views(files: Seq<InputFile>) -> Seq<InputFileView> {
    files.map_values(|f: InputFile| f@)
}

/// Whether every file before `i` parses.
pub open spec fn all_ok(files: Seq<InputFileView>, i: int) -> bool {
    forall|k: int| 0 <= k < i ==> parse_spec((#[trigger] files[k]).lines) is Ok
}

/// The summary one file contributes to the grand total.
pub open spec fn file_total(f: InputFileView) -> SummaryView {
    file_summary(parse_spec(f.lines)->Ok_0)
}

/// Each file's contribution is a pair of nonnegative sums.
pub proof fn lemma_file_total_nonneg(f: InputFileView)
    ensures
        crate::account::summary_nonneg(file_total(f)),
{
    let a = parse_spec(f.lines)->Ok_0;
    crate::account::lemma_sum_if_sign(a.transactions, |tv: TransactionView| tv.amount > 0);
    crate::account::lemma_sum_if_sign(a.transactions, |tv: TransactionView| tv.amount < 0);
}

/// The grand total over the first `i` files.
pub open spec fn totals(files: Seq<InputFileView>, i: int) -> SummaryView
    decreases i,
{
    if i <= 0 {
        SummaryView { income: 0, expenses: 0 }
    } else {
        combine_spec(totals(files, i - 1), file_total(files[i - 1]))
    }
}

/// The grand total reads only the first `i` files.
proof fn lemma_totals_prefix(f1: Seq<InputFileView>, f2: Seq<InputFileView>, i: int)
    requires
        forall|k: int| 0 <= k < i ==> f1[k] == f2[k],
    ensures
        totals(f1, i) == totals(f2, i),
    decreases i,
{
    if i > 0 {
        lemma_totals_prefix(f1, f2, i - 1);
    }
}

/// Any one file's contribution can be pulled out of the fold.
proof fn lemma_totals_pull_out(files: Seq<InputFileView>, i: int, j: int)
    requires
        0 <= j < i <= files.len(),
    ensures
        totals(files, i) == combine_spec(totals(files.remove(j), i - 1), file_total(files[j])),
    decreases i,
{
    files.remove_ensures(j);
    let rest = files.remove(j);
    if j == i - 1 {
        lemma_totals_prefix(rest, files, i - 1);
    } else {
        lemma_totals_pull_out(files, i - 1, j);
        assert(rest[i - 2] == files[i - 1]);
        lemma_totals_wf(rest, i - 2);
        lemma_file_total_nonneg(files[j]);
        lemma_file_total_nonneg(files[i - 1]);
        crate::account::lemma_combine_associative(
            totals(rest, i - 2),
            file_total(files[j]),
            file_total(files[i - 1]),
        );
        crate::account::lemma_combine_commutative(
            file_total(files[j]),
            file_total(files[i - 1]),
        );
        crate::account::lemma_combine_associative(
            totals(rest, i - 2),
            file_total(files[i - 1]),
            file_total(files[j]),
        );
    }
}

/// Processing the files in any other order yields the same grand total:
/// the fold of per-file summaries is invariant under permutation.
pub proof fn lemma_totals_permutation(f1: Seq<InputFileView>, f2: Seq<InputFileView>)
    requires
        f1.to_multiset() == f2.to_multiset(),
    ensures
        totals(f1, f1.len() as int) == totals(f2, f2.len() as int),
    decreases f1.len(),
{
    f1.to_multiset_ensures();
    f2.to_multiset_ensures();
    assert(f1.len() == f2.len());
    if f1.len() > 0 {
        let n = f2.len() as int;
        let last = f2[n - 1];
        assert(f2.contains(last));
        assert(f1.to_multiset().count(last) > 0);
        assert(f1.contains(last));
        let j = choose|j: int| 0 <= j < f1.len() && f1[j] == last;
        let f1r = f1.remove(j);
        assert(f2.remove(n - 1) =~= f2.drop_last());
        assert(f1r.to_multiset() =~= f2.drop_last().to_multiset()) by {
            assert(f1r.to_multiset() =~= f1.to_multiset().remove(last));
            assert(f2.remove(n - 1).to_multiset() =~= f2.to_multiset().remove(last));
        }
        lemma_totals_permutation(f1r, f2.drop_last());
        lemma_totals_pull_out(f1, f1.len() as int, j);
        lemma_totals_prefix(f2.drop_last(), f2, n - 1);
    }
}

/// The grand total of well-formed summaries is well-formed.
pub proof fn lemma_totals_wf(files: Seq<InputFileView>, i: int)
    ensures
        summary_wf(totals(files, i)),
    decreases i,
{
    if i > 0 {
        lemma_totals_wf(files, i - 1);
        lemma_file_total_nonneg(files[i - 1]);
    }
}

/// One report block per parsed file: `blks[k]` is the section block of
/// file `k`, for every file before `i`.
pub open spec fn blocks_ok(
    st: Style,
    files: Seq<InputFileView>,
    i: int,
    blks: Seq<Seq<Seq<char>>>,
) -> bool {
    &&& blks.len() == i
    &&& forall|k: int|
        0 <= k < i ==> report_ok(st, parse_spec(files[k].lines)->Ok_0, #[trigger] blks[k])
}

/// The concatenated reports of the first `i` files: each file's progress
/// line followed by its report block.
pub open spec fn reports_concat(
    files: Seq<InputFileView>,
    i: int,
    blks: Seq<Seq<Seq<char>>>,
) -> Seq<Seq<char>>
    decreases i,
{
    if i <= 0 {
        Seq::<Seq<char>>::empty()
    } else {
        reports_concat(files, i - 1, blks) + seq![reading_line(files[i - 1].name)] + blks[i - 1]
    }
}

/// `reports_concat` over the first `i` files reads only the first `i`
/// blocks.
proof fn lemma_reports_concat_prefix(
    files: Seq<InputFileView>,
    i: int,
    a: Seq<Seq<Seq<char>>>,
    b: Seq<Seq<Seq<char>>>,
)
    requires
        0 <= i,
        i <= a.len(),
        i <= b.len(),
        forall|k: int| 0 <= k < i ==> a[k] == b[k],
    ensures
        reports_concat(files, i, a) == reports_concat(files, i, b),
    decreases i,
{
    if i > 0 {
        lemma_reports_concat_prefix(files, i - 1, a, b);
    }
}

/// Only one block sequence satisfies `blocks_ok`, so the whole output of a
/// run is a function of the input files and the style alone.
pub proof fn lemma_run_output_pinned(
    st: Style,
    files: Seq<InputFileView>,
    i: int,
    b1: Seq<Seq<Seq<char>>>,
    b2: Seq<Seq<Seq<char>>>,
)
    requires
        blocks_ok(st, files, i, b1),
        blocks_ok(st, files, i, b2),
    ensures
        b1 == b2,
        reports_concat(files, i, b1) == reports_concat(files, i, b2),
{
    assert forall|k: int| 0 <= k < i implies #[trigger] b1[k] == b2[k] by {
        lemma_report_pinned(st, parse_spec(files[k].lines)->Ok_0, b1[k], b2[k]);
    }
    assert(b1 =~= b2);
}

/// The closing block of a multi-file run: the combined summary between
/// separator rules.
pub open spec fn trailer_lines(st: Style, total: SummaryView) -> Seq<Seq<char>> {
    seq!["------------------------"@, underline_spec(st, "Summary across accounts:"@)]
        + summary_lines(st, total) + seq!["------------------------"@]
}

/// Appends the closing block of a multi-file run: the combined summary
/// between separator rules.
pub fn print_trailer(out: &mut Vec<String>, style: Style, total: &Summary)
    requires
        summary_wf(total@),
    ensures
        views(final(out)@) == views(old(out)@) + trailer_lines(style, total@),
{
    let rule1 = String::from_str("------------------------");
    proof {
        lemma_views_push(out@, rule1);
    }
    out.push(rule1);
    let head = underline(style, "Summary across accounts:");
    proof {
        lemma_views_push(out@, head);
    }
    out.push(head);
    print_summary(out, style, total);
    let rule2 = String::from_str("------------------------");
    proof {
        lemma_views_push(out@, rule2);
    }
    out.push(rule2);
    proof {
        assert(views(out@) =~= views(old(out)@) + trailer_lines(style, total@));
    }
}

/// Processes the files in order, rendering each report; on success returns
/// the combined summary, which a multi-file run also prints between
/// separator rules.  The first parse error aborts the run.
#[verifier::rlimit(60)]
pub fn expenses(out: &mut Vec<String>, style: Style, files: &Vec<InputFile>) -> (r: Result<
    Summary,
    ParseError,
>)
    ensures
        match r {
            Ok(total) => {
                &&& all_ok(file_views(files@), files@.len() as int)
                &&& total@ == totals(file_views(files@), files@.len() as int)
                &&& summary_wf(total@)
                &&& exists|blks: Seq<Seq<Seq<char>>>|
                    #[trigger] blocks_ok(
                        style,
                        file_views(files@),
                        files@.len() as int,
                        blks,
                    ) && views(final(out)@) == views(old(out)@) + reports_concat(
                        file_views(files@),
                        files@.len() as int,
                        blks,
                    ) + (if files@.len() > 1 {
                        trailer_lines(
                            style,
                            totals(file_views(files@), files@.len() as int),
                        )
                    } else {
                        Seq::<Seq<char>>::empty()
                    })
            },
            Err(e) => exists|j: int|
                {
                    &&& 0 <= j < files@.len()
                    &&& #[trigger] all_ok(file_views(files@), j)
                    &&& parse_spec(file_views(files@)[j].lines) == Err::<
                        AccountView,
                        ParseErrorView,
                    >(e@)
                    &&& exists|blks: Seq<Seq<Seq<char>>>|
                        #[trigger] blocks_ok(
                            style,
                            file_views(files@),
                            j,
                            blks,
                        ) && views(final(out)@) == views(old(out)@) + reports_concat(
                            file_views(files@),
                            j,
                            blks,
                        ) + seq![reading_line(file_views(files@)[j].name)]
                },
        },
{
    let ghost fv = file_views(files@);
    let ghost base = views(out@);
    let mut total = Summary::default();
    let n = files.len();
    let mut i: usize = 0;
    let ghost mut blks: Seq<Seq<Seq<char>>> = Seq::empty();
    proof {
        assert(base + reports_concat(fv, 0, blks) =~= base);
    }
    while i < n
        invariant
            i <= n,
            n == files@.len(),
            fv == file_views(files@),
            base == views(old(out)@),
            total@ == totals(fv, i as int),
            summary_wf(total@),
            all_ok(fv, i as int),
            blocks_ok(style, fv, i as int, blks),
            views(out@) == base + reports_concat(fv, i as int, blks),
        decreases n - i,
    {
        let f = &files[i];
        proof {
            assert(f@ == fv[i as int]);
        }
        let ghost pre = views(out@);
        match expenses_single(out, style, f) {
            Err(e) => {
                proof {
                    assert(views(out@) =~= base + reports_concat(fv, i as int, blks) + seq![
                        reading_line(fv[i as int].name),
                    ]);
                }
                return Err(e);
            },
            Ok(s) => {
                proof {
                    lemma_totals_wf(fv, i as int);
                }
                total = total.combine(&s);
                proof {
                    let a = parse_spec(fv[i as int].lines)->Ok_0;
                    let blk = choose|blk: Seq<Seq<char>>|
                        #[trigger] report_ok(style, a, blk) && views(out@) == pre + seq![
                            reading_line(fv[i as int].name),
                        ] + blk;
                    let ghost old_blks = blks;
                    blks = blks.push(blk);
                    assert(blocks_ok(style, fv, i + 1, blks)) by {
                        assert forall|k: int|
                            0 <= k < i + 1 implies report_ok(
                            style,
                            parse_spec(fv[k].lines)->Ok_0,
                            #[trigger] blks[k],
                        ) by {
                            if k < i {
                                assert(blks[k] == old_blks[k]);
                            } else {
                                assert(blks[k] == blk);
                            }
                        }
                    }
                    assert(reports_concat(fv, i + 1, blks) == reports_concat(fv, i as int, blks)
                        + seq![reading_line(fv[i as int].name)] + blks[i as int]);
                    assert(reports_concat(fv, i as int, blks) == reports_concat(
                        fv,
                        i as int,
                        old_blks,
                    )) by {
                        lemma_reports_concat_prefix(fv, i as int, old_blks, blks);
                    }
                    assert(views(out@) =~= base + reports_concat(fv, i + 1, blks));
                    assert(total@ == totals(fv, i + 1));
                }
            },
        }
        i += 1;
    }
    if n > 1 {
        print_trailer(out, style, &total);
        proof {
            assert(views(out@) =~= base + reports_concat(fv, n as int, blks) + trailer_lines(
                style,
                total@,
            ));
        }
    }
    Ok(total)
}

} // verus!
