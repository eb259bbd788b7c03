//! The data model: transactions, accounts and summaries.
//!
//! A transaction's `amount` is in integer cents, positive for income and
//! negative for expenses.  Its `month` field is the entry date with the
//! leading `DD.` stripped, and serves as the grouping key for the monthly
//! breakdown.  A [`Summary`] is the income/expenses pair of some scope; its
//! profit is derived, never stored.

use vstd::prelude::*;
use vstd::string::*;

use crate::amount::{cents_str, cents_string, signed_cents_str, signed_cents_string, AMOUNT_LIMIT};
use crate::text::{lemma_views_push, trim_end, trim_end_spec, views};

verus! {

/// One dated monetary movement with its metadata, as read from an export row.
#[derive(Debug)]
pub struct Transaction {
    pub entry_date: String,
    pub month: String,
    pub value_date: String,
    pub payment_date: String,
    pub amount: i64,
    pub beneficiary: String,
    pub account_number: String,
    pub bic: String,
    pub transaction: String,
    pub reference_number: String,
    pub originator_reference: String,
    pub message: String,
    pub card_number: String,
    pub receipt: String,
}

/// The mathematical value of a [`Transaction`].
pub struct TransactionView {
    pub entry_date: Seq<char>,
    pub month: Seq<char>,
    pub value_date: Seq<char>,
    pub payment_date: Seq<char>,
    pub amount: int,
    pub beneficiary: Seq<char>,
    pub account_number: Seq<char>,
    pub bic: Seq<char>,
    pub transaction: Seq<char>,
    pub reference_number: Seq<char>,
    pub originator_reference: Seq<char>,
    pub message: Seq<char>,
    pub card_number: Seq<char>,
    pub receipt: Seq<char>,
}

impl View for Transaction {
    type V = TransactionView;

    open spec fn view(&self) -> TransactionView {
        TransactionView {
            entry_date: self.entry_date@,
            month: self.month@,
            value_date: self.value_date@,
            payment_date: self.payment_date@,
            amount: self.amount as int,
            beneficiary: self.beneficiary@,
            account_number: self.account_number@,
            bic: self.bic@,
            transaction: self.transaction@,
            reference_number: self.reference_number@,
            originator_reference: self.originator_reference@,
            message: self.message@,
            card_number: self.card_number@,
            receipt: self.receipt@,
        }
    }
}

/// The month key derived from an entry date: the date with its first three
/// characters (`DD.`) dropped.
pub open spec fn month_of(d: Seq<char>) -> Seq<char> {
    if d.len() >= 3 {
        d.skip(3)
    } else {
        Seq::empty()
    }
}

/// Well-formedness of a transaction: the amount is in range and the month
/// key is the one its entry date yields.
pub open spec fn txn_wf(t: TransactionView) -> bool {
    &&& -(AMOUNT_LIMIT as int) <= t.amount <= AMOUNT_LIMIT as int
    &&& t.month == month_of(t.entry_date)
}

/// A statement: the account number and the transactions in file order.
#[derive(Debug)]
pub struct Account {
    pub number: String,
    pub transactions: Vec<Transaction>,
}

/// The mathematical value of an [`Account`].
pub struct AccountView {
    pub number: Seq<char>,
    pub transactions: Seq<TransactionView>,
}

impl View for Account {
    type V = AccountView;

    open spec fn view(&self) -> AccountView {
        AccountView {
            number: self.number@,
            transactions: self.transactions@.map_values(|t: Transaction| t@),
        }
    }
}

/// Every transaction of the account is well-formed.
pub open spec fn account_wf(a: AccountView) -> bool {
    forall|i: int| 0 <= i < a.transactions.len() ==> txn_wf(#[trigger] a.transactions[i])
}

/// Sum of the amounts of the transactions satisfying `p`, in file order.
pub open spec fn sum_if(ts: Seq<TransactionView>, p: spec_fn(TransactionView) -> bool) -> int
    decreases ts.len(),
{
    if ts.len() == 0 {
        0
    } else {
        sum_if(ts.drop_last(), p) + if p(ts.last()) {
            ts.last().amount
        } else {
            0
        }
    }
}

/// Total income: the sum of all positive amounts.
pub open spec fn sum_income(ts: Seq<TransactionView>) -> int {
    sum_if(ts, |t: TransactionView| t.amount > 0)
}

/// Total expenses: the absolute value of the sum of all negative amounts.
pub open spec fn sum_expenses(ts: Seq<TransactionView>) -> int {
    -sum_if(ts, |t: TransactionView| t.amount < 0)
}

/// A `sum_if` never exceeds `AMOUNT_LIMIT` per transaction in magnitude.
pub proof fn lemma_sum_if_bound(ts: Seq<TransactionView>, p: spec_fn(TransactionView) -> bool)
    requires
        forall|i: int|
            0 <= i < ts.len() ==> -(AMOUNT_LIMIT as int) <= (#[trigger] ts[i]).amount
                <= AMOUNT_LIMIT as int,
    ensures
        -(ts.len() * AMOUNT_LIMIT as int) <= sum_if(ts, p) <= ts.len() * AMOUNT_LIMIT as int,
    decreases ts.len(),
{
    if ts.len() > 0 {
        lemma_sum_if_bound(ts.drop_last(), p);
        assert((ts.len() - 1) * AMOUNT_LIMIT as int + AMOUNT_LIMIT as int == ts.len()
            * AMOUNT_LIMIT as int) by (nonlinear_arith);
    }
}

/// Summing over a predicate that only admits positive amounts is
/// nonnegative; over one that only admits negative amounts, nonpositive.
pub proof fn lemma_sum_if_sign(ts: Seq<TransactionView>, p: spec_fn(TransactionView) -> bool)
    ensures
        (forall|t: TransactionView| p(t) ==> t.amount > 0) ==> sum_if(ts, p) >= 0,
        (forall|t: TransactionView| p(t) ==> t.amount < 0) ==> sum_if(ts, p) <= 0,
    decreases ts.len(),
{
    if ts.len() > 0 {
        lemma_sum_if_sign(ts.drop_last(), p);
    }
}

impl Account {
    /// Sums transaction amounts using `predicate`; `p` is the predicate's
    /// specification.
    pub fn sum<P: Fn(&Transaction) -> bool>(
        &self,
        predicate: P,
        Ghost(p): Ghost<spec_fn(TransactionView) -> bool>,
    ) -> (r: i128)
        requires
            account_wf(self@),
            forall|t: &Transaction| #[trigger] predicate.requires((t,)),
            forall|t: &Transaction, b: bool| predicate.ensures((t,), b) ==> b == p(t@),
        ensures
            r == sum_if(self@.transactions, p),
    {
        let ghost ts = self@.transactions;
        let n = self.transactions.len();
        let mut acc: i128 = 0;
        let mut i: usize = 0;
        while i < n
            invariant
                i <= n,
                n == ts.len(),
                ts == self@.transactions,
                account_wf(self@),
                forall|t: &Transaction| #[trigger] predicate.requires((t,)),
                forall|t: &Transaction, b: bool| predicate.ensures((t,), b) ==> b == p(t@),
                acc == sum_if(ts.take(i as int), p),
                -(i as int * AMOUNT_LIMIT as int) <= acc <= i as int * AMOUNT_LIMIT as int,
            decreases n - i,
        {
            let t = &self.transactions[i];
            proof {
                assert(t@ == ts[i as int]);
                assert(txn_wf(ts[i as int]));
                assert(ts.take(i + 1).drop_last() =~= ts.take(i as int));
                assert(ts.take(i + 1).last() == ts[i as int]);
                assert(i as int * AMOUNT_LIMIT as int + AMOUNT_LIMIT as int == (i + 1) as int
                    * AMOUNT_LIMIT as int) by (nonlinear_arith);
                assert(i as int * AMOUNT_LIMIT as int <= (i + 1) as int * AMOUNT_LIMIT as int);
            }
            if predicate(t) {
                acc = acc + t.amount as i128;
            }
            i += 1;
        }
        proof {
            assert(ts.take(n as int) =~= ts);
        }
        acc
    }
}

/// The income/expenses pair of some scope, in cents.
pub struct Summary {
    pub income: i128,
    pub expenses: i128,
}

/// The mathematical value of a [`Summary`].
pub struct SummaryView {
    pub income: int,
    pub expenses: int,
}

impl View for Summary {
    type V = SummaryView;

    open spec fn view(&self) -> SummaryView {
        SummaryView { income: self.income as int, expenses: self.expenses as int }
    }
}

/// Both components of a summary are nonnegative: each is a sum of
/// magnitudes.
pub open spec fn summary_nonneg(s: SummaryView) -> bool {
    &&& 0 <= s.income
    &&& 0 <= s.expenses
}

/// A nonnegative summary whose components are representable.
pub open spec fn summary_wf(s: SummaryView) -> bool {
    &&& 0 <= s.income <= i128::MAX as int
    &&& 0 <= s.expenses <= i128::MAX as int
}

/// Addition that stops at the largest representable value.  The cap is
/// unreachable for sums built from in-range amounts; it only makes the
/// combination of summaries total.
pub open spec fn sat_add(a: int, b: int) -> int {
    if a + b > i128::MAX as int {
        i128::MAX as int
    } else {
        a + b
    }
}

/// Component-wise combination of two summaries.
pub open spec fn combine_spec(a: SummaryView, b: SummaryView) -> SummaryView {
    SummaryView { income: sat_add(a.income, b.income), expenses: sat_add(a.expenses, b.expenses) }
}

impl Summary {
    /// Profit is income minus expenses.
    pub fn profit(&self) -> (r: i128)
        requires
            summary_wf(self@),
        ensures
            r == self@.income - self@.expenses,
    {
        self.income - self.expenses
    }

    /// Component-wise addition, folding another scope's summary into this
    /// one's.
    pub fn combine(&self, other: &Summary) -> (r: Summary)
        requires
            summary_wf(self@),
            summary_wf(other@),
        ensures
            r@ == combine_spec(self@, other@),
            summary_wf(r@),
    {
        let income = if self.income > i128::MAX - other.income {
            i128::MAX
        } else {
            self.income + other.income
        };
        let expenses = if self.expenses > i128::MAX - other.expenses {
            i128::MAX
        } else {
            self.expenses + other.expenses
        };
        Summary { income, expenses }
    }
}

impl Default for Summary {
    /// The zero summary.
    fn default() -> (s: Summary)
        ensures
            s@ == (SummaryView { income: 0, expenses: 0 }),
            summary_wf(s@),
    {
        Summary { income: 0, expenses: 0 }
    }
}

/// Combining summaries is commutative: processing files in another order
/// yields the same grand total.
pub proof fn lemma_combine_commutative(a: SummaryView, b: SummaryView)
    ensures
        combine_spec(a, b) == combine_spec(b, a),
{
}

/// Combining summaries is associative: the grouping of the running total
/// does not matter.
pub proof fn lemma_combine_associative(a: SummaryView, b: SummaryView, c: SummaryView)
    requires
        summary_nonneg(a),
        summary_nonneg(b),
        summary_nonneg(c),
    ensures
        combine_spec(a, combine_spec(b, c)) == combine_spec(combine_spec(a, b), c),
{
}

/// The free-text part of a transaction's display line, before trimming:
/// `beneficiary - ` (omitted when the beneficiary is empty), then the type
/// label and the message, space-separated.
pub open spec fn message_str(t: TransactionView) -> Seq<char> {
    (if t.beneficiary.len() == 0 {
        Seq::<char>::empty()
    } else {
        t.beneficiary + " - "@
    }) + t.transaction + " "@ + t.message
}

/// A transaction's line in the monthly breakdown.
pub open spec fn txn_line(t: TransactionView) -> Seq<char> {
    "        "@ + t.entry_date + ": "@ + signed_cents_str(t.amount) + " ("@ + trim_end_spec(
        message_str(t),
    ) + ")"@
}

/// A transaction's line in the recurrent-payments section: the negated
/// amount, no message.
pub open spec fn txn_short_line(t: TransactionView) -> Seq<char> {
    "        "@ + t.entry_date + ": "@ + cents_str(-t.amount)
}

impl Transaction {
    /// The composed free-text message, untrimmed.
    pub fn message(&self) -> (r: String)
        ensures
            r@ == message_str(self@),
    {
        let mut r = if self.beneficiary.as_str().is_empty() {
            String::new()
        } else {
            let mut b = self.beneficiary.clone();
            b.append(" - ");
            b
        };
        r.append(self.transaction.as_str());
        r.append(" ");
        r.append(self.message.as_str());
        proof {
            reveal_strlit(" - ");
            reveal_strlit(" ");
            assert(r@ =~= message_str(self@));
        }
        r
    }

    /// Appends the transaction's monthly-breakdown line to `out`.
    pub fn print(&self, out: &mut Vec<String>)
        requires
            txn_wf(self@),
        ensures
            views(final(out)@) == views(old(out)@).push(txn_line(self@)),
    {
        let mut line = String::from_str("        ");
        line.append(self.entry_date.as_str());
        line.append(": ");
        let amt = signed_cents_string(self.amount as i128);
        line.append(amt.as_str());
        line.append(" (");
        let msg = self.message();
        let trimmed = trim_end(msg.as_str());
        line.append(trimmed.as_str());
        line.append(")");
        proof {
            assert(line@ =~= txn_line(self@));
            lemma_views_push(old(out)@, line);
        }
        out.push(line);
    }

    /// Appends the transaction's recurrent-payments line to `out`; the
    /// amount, an expense, is displayed as a positive magnitude.
    pub fn print_short(&self, out: &mut Vec<String>)
        requires
            txn_wf(self@),
            self@.amount <= 0,
        ensures
            views(final(out)@) == views(old(out)@).push(txn_short_line(self@)),
    {
        let mut line = String::from_str("        ");
        line.append(self.entry_date.as_str());
        line.append(": ");
        let amt = cents_string((-self.amount) as u128);
        line.append(amt.as_str());
        proof {
            assert(line@ =~= txn_short_line(self@));
            lemma_views_push(old(out)@, line);
        }
        out.push(line);
    }
}

} // verus!
