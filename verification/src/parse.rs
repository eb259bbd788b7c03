//! Parsing a tab-delimited export into an [`Account`].
//!
//! Line 0 names the account in its second field; lines 1–3 are headers and
//! always skipped; every later line with at least 13 tab-separated fields is
//! a transaction row, and shorter lines are tolerated silently.  A row's
//! amount field must be a decimal number (`,` as fractional separator); a
//! malformed amount is fatal for the whole parse and reported with its line
//! index and raw text.

use vstd::prelude::*;
use vstd::string::*;

use crate::account::{account_wf, month_of, txn_wf, Account, AccountView, Transaction,
    TransactionView};
use crate::amount::{amount_cents, parse_amount};
use crate::text::{lemma_views_push, split_char, split_tab, views};

verus! {

/// Why a parse failed.
#[derive(Debug)]
pub enum ParseError {
    /// Line 0 has no account-number field.
    MissingAccountNumber,
    /// A transaction row's amount field is not a decimal number in range;
    /// carries the row's line index and the raw field text.
    BadAmount { line: usize, raw: String },
}

/// The mathematical value of a [`ParseError`].
pub enum ParseErrorView {
    MissingAccountNumber,
    BadAmount { line: int, raw: Seq<char> },
}

impl View for ParseError {
    type V = ParseErrorView;

    open spec fn view(&self) -> ParseErrorView {
        match self {
            ParseError::MissingAccountNumber => ParseErrorView::MissingAccountNumber,
            ParseError::BadAmount { line, raw } => ParseErrorView::BadAmount {
                line: *line as int,
                raw: raw@,
            },
        }
    }
}

/// The transaction a row with fields `fields` describes, given its parsed
/// amount `v`.
pub open spec fn row_txn(fields: Seq<Seq<char>>, v: int) -> TransactionView {
    TransactionView {
        entry_date: fields[0],
        month: month_of(fields[0]),
        value_date: fields[1],
        payment_date: fields[2],
        amount: v,
        beneficiary: fields[4],
        account_number: fields[5],
        bic: fields[6],
        transaction: fields[7],
        reference_number: fields[8],
        originator_reference: fields[9],
        message: fields[10],
        card_number: fields[11],
        receipt: fields[12],
    }
}

/// The transactions of lines `4..i`, in file order, or the first amount
/// error among them.
pub open spec fn rows_upto(lines: Seq<Seq<char>>, i: int) -> Result<
    Seq<TransactionView>,
    ParseErrorView,
>
    decreases i,
{
    if i <= 4 {
        Ok(Seq::empty())
    } else {
        match rows_upto(lines, i - 1) {
            Err(e) => Err(e),
            Ok(ts) => {
                let fields = split_char(lines[i - 1], '\t');
                if fields.len() >= 13 {
                    match amount_cents(fields[3]) {
                        Some(v) => Ok(ts.push(row_txn(fields, v))),
                        None => Err(ParseErrorView::BadAmount { line: i - 1, raw: fields[3] }),
                    }
                } else {
                    Ok(ts)
                }
            },
        }
    }
}

/// A row error stays once it occurs: rows past it are never reached.
pub proof fn lemma_rows_upto_err(lines: Seq<Seq<char>>, i: int, j: int)
    requires
        i <= j,
        rows_upto(lines, i) is Err,
    ensures
        rows_upto(lines, j) == rows_upto(lines, i),
    decreases j,
{
    if i < j {
        lemma_rows_upto_err(lines, i, j - 1);
    }
}

/// The parse of a whole export file: the account number from line 0, the
/// transactions from lines 4 on.  An empty file yields the placeholder
/// account number.
pub open spec fn parse_spec(lines: Seq<Seq<char>>) -> Result<AccountView, ParseErrorView> {
    if lines.len() == 0 {
        Ok(AccountView { number: "Unknown"@, transactions: Seq::empty() })
    } else {
        let fields0 = split_char(lines[0], '\t');
        if fields0.len() < 2 {
            Err(ParseErrorView::MissingAccountNumber)
        } else {
            match rows_upto(lines, lines.len() as int) {
                Ok(ts) => Ok(AccountView { number: fields0[1], transactions: ts }),
                Err(e) => Err(e),
            }
        }
    }
}

/// The progress line announcing a file.
pub open spec fn reading_line(name: Seq<char>) -> Seq<char> {
    "Reading file "@ + name
}

/// Parses the lines of one export file, after appending the progress line
/// for `file_name` to `out`.
pub fn parse(out: &mut Vec<String>, file_name: &str, lines: &Vec<String>) -> (r: Result<
    Account,
    ParseError,
>)
    ensures
        views(final(out)@) == views(old(out)@).push(reading_line(file_name@)),
        match r {
            Ok(account) => parse_spec(views(lines@)) == Ok::<AccountView, ParseErrorView>(
                account@,
            ) && account_wf(account@),
            Err(e) => parse_spec(views(lines@)) == Err::<AccountView, ParseErrorView>(e@),
        },
{
    let mut progress = String::from_str("Reading file ");
    progress.append(file_name);
    proof {
        lemma_views_push(old(out)@, progress);
    }
    out.push(progress);

    let ghost lines_v = views(lines@);
    let n = lines.len();
    let mut number = String::from_str("Unknown");
    if n > 0 {
        let fields0 = split_tab(lines[0].as_str());
        proof {
            assert(lines_v[0] == lines@[0]@);
            assert(views(fields0@).len() == fields0@.len());
        }
        if fields0.len() < 2 {
            return Err(ParseError::MissingAccountNumber);
        }
        number = fields0[1].clone();
        proof {
            assert(split_char(lines_v[0], '\t').len() >= 2);
            assert(number@ == split_char(lines_v[0], '\t')[1]);
        }
    }
    let ghost number_v = number@;
    proof {
        if lines@.len() > 0 {
            assert(split_char(lines_v[0], '\t').len() >= 2);
            assert(number_v == split_char(lines_v[0], '\t')[1]);
        } else {
            reveal_strlit("Unknown");
            assert(number_v == "Unknown"@);
        }
    }

    let mut txns: Vec<Transaction> = Vec::new();
    let mut i: usize = 4;
    proof {
        assert(txns@.map_values(|t: Transaction| t@) =~= Seq::<TransactionView>::empty());
    }
    while i < n
        invariant
            4 <= i,
            i <= n || i == 4,
            n == lines@.len(),
            lines_v == views(lines@),
            number@ == number_v,
            lines@.len() > 0 ==> split_char(lines_v[0], '\t').len() >= 2 && number_v == split_char(
                lines_v[0],
                '\t',
            )[1],
            views(out@) == views(old(out)@).push(reading_line(file_name@)),
            i <= n ==> rows_upto(lines_v, i as int) == Ok::<Seq<TransactionView>, ParseErrorView>(
                txns@.map_values(|t: Transaction| t@),
            ),
            n < 4 ==> txns@.len() == 0,
            forall|k: int| 0 <= k < txns@.len() ==> txn_wf((#[trigger] txns@[k])@),
        decreases n - i,
    {
        let ghost ts_before = txns@.map_values(|t: Transaction| t@);
        let fields = split_tab(lines[i].as_str());
        let ghost fields_v = views(fields@);
        proof {
            assert(lines_v[i as int] == lines@[i as int]@);
        }
        if fields.len() >= 13 {
            match parse_amount(fields[3].as_str()) {
                None => {
                    let e = ParseError::BadAmount { line: i, raw: fields[3].clone() };
                    proof {
                        assert(fields@[3]@ == fields_v[3]);
                        assert(rows_upto(lines_v, i + 1) == Err::<
                            Seq<TransactionView>,
                            ParseErrorView,
                        >(e@));
                        lemma_rows_upto_err(lines_v, i + 1, n as int);
                    }
                    return Err(e);
                },
                Some(v) => {
                    let entry_date = fields[0].clone();
                    let ed_len = entry_date.as_str().unicode_len();
                    let month = if ed_len >= 3 {
                        let m = entry_date.as_str().substring_char(3, ed_len);
                        String::from_str(m)
                    } else {
                        String::new()
                    };
                    proof {
                        assert(month@ == month_of(entry_date@));
                    }
                    let t = Transaction {
                        entry_date,
                        month,
                        value_date: fields[1].clone(),
                        payment_date: fields[2].clone(),
                        amount: v,
                        beneficiary: fields[4].clone(),
                        account_number: fields[5].clone(),
                        bic: fields[6].clone(),
                        transaction: fields[7].clone(),
                        reference_number: fields[8].clone(),
                        originator_reference: fields[9].clone(),
                        message: fields[10].clone(),
                        card_number: fields[11].clone(),
                        receipt: fields[12].clone(),
                    };
                    proof {
                        assert(t@ == row_txn(fields_v, v as int));
                        assert(txns@.push(t).map_values(|x: Transaction| x@) =~= ts_before.push(
                            t@,
                        ));
                    }
                    txns.push(t);
                },
            }
        }
        i += 1;
    }
    proof {
        if n <= 4 {
            assert(rows_upto(lines_v, n as int) == Ok::<Seq<TransactionView>, ParseErrorView>(
                txns@.map_values(|t: Transaction| t@),
            )) by {
                assert(txns@.map_values(|t: Transaction| t@) =~= Seq::<TransactionView>::empty());
            }
        }
    }
    let account = Account { number, transactions: txns };
    proof {
        if lines@.len() == 0 {
            reveal_strlit("Unknown");
            assert(account@.number == "Unknown"@);
        }
        assert(parse_spec(lines_v) == Ok::<AccountView, ParseErrorView>(account@));
    }
    Ok(account)
}

} // verus!
