//! Detection and rendering of recurrent payments.
//!
//! Expense transactions (negative amounts) are grouped by counterparty:
//! the beneficiary, or the transaction-type label when the beneficiary is
//! empty.  A counterparty recurs when it is billed at least twice; the
//! recurring groups display sorted by total spent ascending (most heavily
//! spent first, totals being negative), ties broken by key, each group's
//! transactions in file order with their amounts shown as positive
//! magnitudes.

use vstd::prelude::*;
use vstd::string::*;

use crate::account::{account_wf, txn_short_line, txn_wf, Account, Transaction, TransactionView};
use crate::amount::{cents_str, cents_string, AMOUNT_LIMIT};
use crate::sort::{lemma_insert_contains, lemma_push_contains};
use crate::style::{bold, bold_spec, underline, underline_spec, Style};
use crate::text::{lemma_lex_lt_asymmetric, lemma_lex_lt_total, lemma_lex_lt_transitive,
    lemma_views_push, lex_lt, spaces, space_string, str_eq, str_lt, views};

verus! {

/// The grouping key of a transaction: beneficiary, or type label when the
/// beneficiary is empty.
pub open spec fn key_of(t: TransactionView) -> Seq<char> {
    if t.beneficiary.len() == 0 {
        t.transaction
    } else {
        t.beneficiary
    }
}

/// Whether `t` is an expense belonging to the group of `k`.
pub open spec fn is_expense_with_key(t: TransactionView, k: Seq<char>) -> bool {
    t.amount < 0 && key_of(t) == k
}

/// Indices of the expense transactions with key `k`, in file order.
pub open spec fn key_rows(ts: Seq<TransactionView>, k: Seq<char>) -> Seq<int>
    decreases ts.len(),
{
    if ts.len() == 0 {
        Seq::empty()
    } else {
        let pre = key_rows(ts.drop_last(), k);
        if is_expense_with_key(ts.last(), k) {
            pre.push(ts.len() - 1)
        } else {
            pre
        }
    }
}

/// The indices `key_rows` yields are within range and increasing, and hold
/// exactly the positions of the expenses with key `k`.
pub proof fn lemma_key_rows(ts: Seq<TransactionView>, k: Seq<char>)
    ensures
        forall|j: int| 0 <= j < key_rows(ts, k).len() ==> 0 <= #[trigger] key_rows(ts, k)[j]
            < ts.len(),
        forall|j: int, l: int|
            0 <= j < l < key_rows(ts, k).len() ==> key_rows(ts, k)[j] < key_rows(ts, k)[l],
        forall|i: int|
            0 <= i < ts.len() ==> (key_rows(ts, k).contains(i) <==> is_expense_with_key(
                #[trigger] ts[i],
                k,
            )),
    decreases ts.len(),
{
    if ts.len() > 0 {
        lemma_key_rows(ts.drop_last(), k);
        let pre = key_rows(ts.drop_last(), k);
        assert forall|i: int|
            0 <= i < ts.len() implies (key_rows(ts, k).contains(i) <==> is_expense_with_key(
            ts[i],
            k,
        )) by {
            if i < ts.len() - 1 {
                assert(ts.drop_last()[i] == ts[i]);
                lemma_push_contains(pre, ts.len() - 1, i);
            } else {
                if is_expense_with_key(ts.last(), k) {
                    lemma_push_contains(pre, ts.len() - 1, i);
                } else {
                    if pre.contains(i) {
                        assert(false);
                    }
                }
            }
        }
    }
}

/// A counterparty recurs when it has at least two expense transactions.
pub open spec fn is_recurrent(ts: Seq<TransactionView>, k: Seq<char>) -> bool {
    key_rows(ts, k).len() >= 2
}

/// Sum of the amounts at the given indices.
pub open spec fn amount_sum(ts: Seq<TransactionView>, rows: Seq<int>) -> int
    decreases rows.len(),
{
    if rows.len() == 0 {
        0
    } else {
        amount_sum(ts, rows.drop_last()) + ts[rows.last()].amount
    }
}

/// One recurring counterparty: its key, the sum of its (negative) amounts,
/// and the indices of its transactions in the account's list.
#[derive(Debug)]
pub struct RecurrentPayment {
    pub key: String,
    pub total_spent: i128,
    pub rows: Vec<usize>,
}

/// The mathematical value of a [`RecurrentPayment`].
pub struct RecurrentPaymentView {
    pub key: Seq<char>,
    pub total_spent: int,
    pub rows: Seq<int>,
}

impl View for RecurrentPayment {
    type V = RecurrentPaymentView;

    open spec fn view(&self) -> RecurrentPaymentView {
        RecurrentPaymentView {
            key: self.key@,
            total_spent: self.total_spent as int,
            rows: self.rows@.map_values(|x: usize| x as int),
        }
    }
}

/// What one group of the detector holds: exactly the rows of its key, a
/// recurring key, and their exact total.
pub open spec fn group_ok(ts: Seq<TransactionView>, g: RecurrentPaymentView) -> bool {
    &&& is_recurrent(ts, g.key)
    &&& g.rows == key_rows(ts, g.key)
    &&& g.total_spent == amount_sum(ts, key_rows(ts, g.key))
}

/// What the whole group list holds: correct groups, one per recurring key,
/// covering every recurring key.
pub open spec fn groups_ok(ts: Seq<TransactionView>, gs: Seq<RecurrentPaymentView>) -> bool {
    &&& forall|j: int| 0 <= j < gs.len() ==> group_ok(ts, #[trigger] gs[j])
    &&& forall|j: int, l: int| 0 <= j < l < gs.len() ==> gs[j].key != gs[l].key
    &&& forall|k: Seq<char>|
        is_recurrent(ts, k) ==> exists|j: int| 0 <= j < gs.len() && (#[trigger] gs[j]).key == k
}

/// The distinct expense keys of the account, in first-occurrence order.
fn expense_keys(account: &Account) -> (keys: Vec<String>)
    ensures
        forall|j: int, l: int| 0 <= j < l < keys@.len() ==> keys@[j]@ != keys@[l]@,
        forall|k: Seq<char>|
            (exists|j: int| 0 <= j < keys@.len() && (#[trigger] keys@[j])@ == k) <==> key_rows(
                account@.transactions,
                k,
            ).len() >= 1,
{
    let ghost ts = account@.transactions;
    let n = account.transactions.len();
    let mut keys: Vec<String> = Vec::new();
    let mut i: usize = 0;
    while i < n
        invariant
            i <= n,
            n == ts.len(),
            ts == account@.transactions,
            forall|j: int, l: int| 0 <= j < l < keys@.len() ==> keys@[j]@ != keys@[l]@,
            forall|k: Seq<char>|
                (exists|j: int| 0 <= j < keys@.len() && (#[trigger] keys@[j])@ == k) <==> key_rows(
                    ts.take(i as int),
                    k,
                ).len() >= 1,
        decreases n - i,
    {
        let t = &account.transactions[i];
        proof {
            assert(t@ == ts[i as int]);
            assert(ts.take(i + 1).drop_last() =~= ts.take(i as int));
            assert(ts.take(i + 1).last() == ts[i as int]);
        }
        let ghost keys_before = keys@;
        let expense = t.amount < 0;
        if expense {
            let cand = if t.beneficiary.as_str().is_empty() {
                &t.transaction
            } else {
                &t.beneficiary
            };
            proof {
                assert(cand@ == key_of(ts[i as int]));
            }
            let mut found = false;
            let mut j: usize = 0;
            let m = keys.len();
            while j < m
                invariant
                    j <= m,
                    m == keys@.len(),
                    keys@ == keys_before,
                    cand@ == key_of(ts[i as int]),
                    found <==> exists|l: int| 0 <= l < j && (#[trigger] keys@[l])@ == cand@,
                decreases m - j,
            {
                if str_eq(keys[j].as_str(), cand.as_str()) {
                    found = true;
                    proof {
                        assert(0 <= j < j + 1 && keys@[j as int]@ == cand@);
                    }
                }
                j += 1;
            }
            if !found {
                let owned = cand.clone();
                keys.push(owned);
            }
            proof {
                if found {
                    assert(keys@ == keys_before);
                } else {
                    assert(keys@[keys@.len() - 1]@ == cand@);
                }
                assert(exists|l: int| 0 <= l < keys@.len() && (#[trigger] keys@[l])@ == cand@);
                assert(keys@ != keys_before ==> keys@[keys@.len() - 1]@ == cand@);
            }
        }
        proof {
            let ki = key_of(ts[i as int]);
            assert forall|k: Seq<char>|
                #![trigger key_rows(ts.take(i + 1), k)]
                ((exists|j2: int| 0 <= j2 < keys@.len() && (#[trigger] keys@[j2])@ == k) <==> key_rows(
                    ts.take(i + 1),
                    k,
                ).len() >= 1) by {
                let old_rows = key_rows(ts.take(i as int), k);
                if expense && k == ki {
                    assert(key_rows(ts.take(i + 1), k) == old_rows.push(i as int));
                    assert(exists|l: int| 0 <= l < keys@.len() && (#[trigger] keys@[l])@ == k);
                } else {
                    assert(key_rows(ts.take(i + 1), k) == old_rows);
                    if exists|j2: int| 0 <= j2 < keys@.len() && (#[trigger] keys@[j2])@ == k {
                        let j2 = choose|j2: int|
                            0 <= j2 < keys@.len() && (#[trigger] keys@[j2])@ == k;
                        if keys@ == keys_before {
                            assert(keys_before[j2]@ == k);
                        } else {
                            assert(keys@[keys@.len() - 1]@ == ki);
                            assert(keys@.len() == keys_before.len() + 1);
                            assert(j2 < keys_before.len());
                            assert(keys_before[j2]@ == k);
                        }
                        assert(old_rows.len() >= 1);
                    }
                    if old_rows.len() >= 1 {
                        let j2 = choose|j2: int|
                            0 <= j2 < keys_before.len() && (#[trigger] keys_before[j2])@ == k;
                        assert(keys@[j2]@ == k);
                    }
                }
            }
        }
        i += 1;
    }
    proof {
        assert(ts.take(n as int) =~= ts);
    }
    keys
}

/// The indices of the expenses whose key is `key`, in file order.
fn rows_for_key(account: &Account, key: &String) -> (rows: Vec<usize>)
    ensures
        rows@.map_values(|x: usize| x as int) == key_rows(account@.transactions, key@),
        forall|j: int| 0 <= j < rows@.len() ==> (#[trigger] rows@[j]) < account@.transactions.len(),
{
    let ghost ts = account@.transactions;
    let n = account.transactions.len();
    let mut rows: Vec<usize> = Vec::new();
    let mut i: usize = 0;
    proof {
        assert(rows@.map_values(|x: usize| x as int) =~= Seq::<int>::empty());
    }
    while i < n
        invariant
            i <= n,
            n == ts.len(),
            ts == account@.transactions,
            rows@.map_values(|x: usize| x as int) == key_rows(ts.take(i as int), key@),
            forall|j: int| 0 <= j < rows@.len() ==> (#[trigger] rows@[j]) < i,
        decreases n - i,
    {
        let t = &account.transactions[i];
        proof {
            assert(t@ == ts[i as int]);
            assert(ts.take(i + 1).drop_last() =~= ts.take(i as int));
            assert(ts.take(i + 1).last() == ts[i as int]);
        }
        let mut matched = false;
        if t.amount < 0 {
            let cand = if t.beneficiary.as_str().is_empty() {
                &t.transaction
            } else {
                &t.beneficiary
            };
            proof {
                assert(cand@ == key_of(ts[i as int]));
            }
            matched = str_eq(cand.as_str(), key.as_str());
        }
        proof {
            assert(matched == is_expense_with_key(ts[i as int], key@));
        }
        if matched {
            let ghost before = rows@;
            rows.push(i);
            proof {
                assert(rows@.map_values(|x: usize| x as int) =~= before.map_values(
                    |x: usize| x as int,
                ).push(i as int));
            }
        }
        i += 1;
    }
    proof {
        assert(ts.take(n as int) =~= ts);
    }
    rows
}

/// Sum of the amounts at `rows`, exact and in range.
fn rows_total(account: &Account, rows: &Vec<usize>) -> (total: i128)
    requires
        account_wf(account@),
        forall|j: int| 0 <= j < rows@.len() ==> (#[trigger] rows@[j]) < account@.transactions.len(),
    ensures
        total == amount_sum(account@.transactions, rows@.map_values(|x: usize| x as int)),
{
    let ghost ts = account@.transactions;
    let ghost rs = rows@.map_values(|x: usize| x as int);
    let n = rows.len();
    let mut total: i128 = 0;
    let mut i: usize = 0;
    proof {
        assert(rs.take(0) =~= Seq::<int>::empty());
    }
    while i < n
        invariant
            i <= n,
            n == rows@.len(),
            ts == account@.transactions,
            rs == rows@.map_values(|x: usize| x as int),
            account_wf(account@),
            forall|j: int| 0 <= j < rows@.len() ==> (#[trigger] rows@[j])
                < account@.transactions.len(),
            total == amount_sum(ts, rs.take(i as int)),
            -(i as int * AMOUNT_LIMIT as int) <= total <= i as int * AMOUNT_LIMIT as int,
        decreases n - i,
    {
        let idx = rows[i];
        let t = &account.transactions[idx];
        proof {
            assert(t@ == ts[idx as int]);
            assert(txn_wf(ts[idx as int]));
            assert(rs.take(i + 1).drop_last() =~= rs.take(i as int));
            assert(rs.take(i + 1).last() == idx as int);
            assert(i as int * AMOUNT_LIMIT as int + AMOUNT_LIMIT as int == (i + 1) as int
                * AMOUNT_LIMIT as int) by (nonlinear_arith);
        }
        total = total + t.amount as i128;
        i += 1;
    }
    proof {
        assert(rs.take(n as int) =~= rs);
    }
    total
}

/// Builds the recurring groups of the account, one per key with at least
/// two expense transactions.
fn build_groups(account: &Account) -> (gs: Vec<RecurrentPayment>)
    requires
        account_wf(account@),
    ensures
        groups_ok(account@.transactions, gs@.map_values(|g: RecurrentPayment| g@)),
{
    let ghost ts = account@.transactions;
    let keys = expense_keys(account);
    let mut gs: Vec<RecurrentPayment> = Vec::new();
    let nk = keys.len();
    let mut i: usize = 0;
    while i < nk
        invariant
            i <= nk,
            nk == keys@.len(),
            ts == account@.transactions,
            account_wf(account@),
            forall|j: int, l: int| 0 <= j < l < keys@.len() ==> keys@[j]@ != keys@[l]@,
            forall|k: Seq<char>|
                (exists|j: int| 0 <= j < keys@.len() && (#[trigger] keys@[j])@ == k) <==> key_rows(
                    ts,
                    k,
                ).len() >= 1,
            forall|j: int|
                0 <= j < gs@.len() ==> group_ok(ts, (#[trigger] gs@[j])@) && (exists|l: int|
                    0 <= l < i && keys@[l]@ == gs@[j]@.key),
            forall|j: int, l: int| 0 <= j < l < gs@.len() ==> gs@[j]@.key != gs@[l]@.key,
            forall|l: int|
                0 <= l < i && is_recurrent(ts, keys@[l]@) ==> exists|j: int|
                    0 <= j < gs@.len() && (#[trigger] gs@[j])@.key == keys@[l]@,
        decreases nk - i,
    {
        let key = &keys[i];
        let rows = rows_for_key(account, key);
        if rows.len() >= 2 {
            let total = rows_total(account, &rows);
            let g = RecurrentPayment { key: key.clone(), total_spent: total, rows };
            let ghost old_gs = gs@;
            gs.push(g);
            proof {
                assert(gs@.drop_last() =~= old_gs);
                assert(gs@.last() == g);
                assert(g@.key == keys@[i as int]@);
                assert forall|j: int, l: int|
                    0 <= j < l < gs@.len() implies gs@[j]@.key != gs@[l]@.key by {
                    if l == gs@.len() - 1 {
                        let lw = choose|lw: int| 0 <= lw < i && keys@[lw]@ == gs@[j]@.key;
                        assert(keys@[lw]@ != keys@[i as int]@);
                    }
                }
            }
        }
        i += 1;
    }
    proof {
        let gsv = gs@.map_values(|g: RecurrentPayment| g@);
        assert forall|k: Seq<char>| #[trigger] is_recurrent(ts, k) implies exists|j: int|
            0 <= j < gsv.len() && (#[trigger] gsv[j]).key == k by {
            assert(key_rows(ts, k).len() >= 1);
            let l = choose|l: int| 0 <= l < keys@.len() && (#[trigger] keys@[l])@ == k;
            let j = choose|j: int| 0 <= j < gs@.len() && (#[trigger] gs@[j])@.key == keys@[l]@;
            assert(gsv[j].key == k);
        }
        assert(groups_ok(ts, gsv));
    }
    gs
}

/// Display order of two groups: total spent ascending (most heavily spent
/// first, totals being negative), key ascending.
pub open spec fn group_lt(a: RecurrentPaymentView, b: RecurrentPaymentView) -> bool {
    ||| a.total_spent < b.total_spent
    ||| (a.total_spent == b.total_spent && lex_lt(a.key, b.key))
}

/// On groups with distinct keys the order is total and strict.
pub proof fn lemma_group_lt_total(a: RecurrentPaymentView, b: RecurrentPaymentView)
    requires
        a.key != b.key,
    ensures
        group_lt(a, b) || group_lt(b, a),
        !(group_lt(a, b) && group_lt(b, a)),
{
    lemma_lex_lt_total(a.key, b.key);
    lemma_lex_lt_asymmetric(a.key, b.key);
}

/// The group order is transitive.
pub proof fn lemma_group_lt_trans(
    a: RecurrentPaymentView,
    b: RecurrentPaymentView,
    c: RecurrentPaymentView,
)
    requires
        group_lt(a, b),
        group_lt(b, c),
    ensures
        group_lt(a, c),
{
    if a.total_spent == b.total_spent && b.total_spent == c.total_spent {
        lemma_lex_lt_transitive(a.key, b.key, c.key);
    }
}

/// Whether group `a` displays before group `b`.
fn group_before(a: &RecurrentPayment, b: &RecurrentPayment) -> (r: bool)
    ensures
        r == group_lt(a@, b@),
{
    if a.total_spent < b.total_spent {
        true
    } else if a.total_spent == b.total_spent {
        str_lt(a.key.as_str(), b.key.as_str())
    } else {
        false
    }
}

/// A display order for the groups: a strictly `group_lt`-sorted arrangement
/// of exactly the indices `0..gs.len()`.
pub open spec fn order_ok(gs: Seq<RecurrentPaymentView>, order: Seq<int>) -> bool {
    &&& order.len() == gs.len()
    &&& forall|k: int| 0 <= k < order.len() ==> 0 <= #[trigger] order[k] < gs.len()
    &&& forall|k: int, l: int|
        0 <= k < l < order.len() ==> group_lt(gs[order[k]], gs[order[l]])
    &&& forall|x: int| 0 <= x < gs.len() ==> order.contains(x)
}

/// Sorts the group indices into display order.
fn sort_groups(gs: &Vec<RecurrentPayment>) -> (order: Vec<usize>)
    requires
        forall|j: int, l: int|
            0 <= j < l < gs@.len() ==> (#[trigger] gs@[j])@.key != (#[trigger] gs@[l])@.key,
    ensures
        order_ok(
            gs@.map_values(|g: RecurrentPayment| g@),
            order@.map_values(|x: usize| x as int),
        ),
{
    let ghost gsv = gs@.map_values(|g: RecurrentPayment| g@);
    let n = gs.len();
    let mut order: Vec<usize> = Vec::new();
    let mut i: usize = 0;
    while i < n
        invariant
            i <= n,
            n == gs@.len(),
            gsv == gs@.map_values(|g: RecurrentPayment| g@),
            forall|j: int, l: int|
                0 <= j < l < gs@.len() ==> (#[trigger] gs@[j])@.key != (#[trigger] gs@[l])@.key,
            order@.len() == i,
            forall|k: int| 0 <= k < order@.len() ==> (#[trigger] order@[k]) < n,
            forall|k: int, l: int|
                0 <= k < l < order@.len() ==> group_lt(
                    gsv[order@[k] as int],
                    gsv[order@[l] as int],
                ),
            forall|x: usize| order@.contains(x) <==> (x as int) < i,
        decreases n - i,
    {
        let x = i;
        proof {
            if order@.contains(x) {
                assert(false);
            }
        }
        let mut j: usize = 0;
        loop
            invariant
                j <= order@.len(),
                order@.len() == i,
                i < n,
                n == gs@.len(),
                x == i,
                gsv == gs@.map_values(|g: RecurrentPayment| g@),
                forall|j2: int, l: int|
                    0 <= j2 < l < gs@.len() ==> (#[trigger] gs@[j2])@.key != (#[trigger] gs@[l])@.key,
                !order@.contains(x),
                forall|x2: usize| order@.contains(x2) <==> (x2 as int) < i,
                forall|k: int| 0 <= k < order@.len() ==> (#[trigger] order@[k]) < n,
                forall|k: int| 0 <= k < j ==> group_lt(gsv[order@[k] as int], gsv[x as int]),
            ensures
                j <= order@.len(),
                forall|k: int| 0 <= k < j ==> group_lt(gsv[order@[k] as int], gsv[x as int]),
                j < order@.len() ==> group_lt(gsv[x as int], gsv[order@[j as int] as int]),
            decreases order@.len() - j,
        {
            if j >= order.len() {
                break;
            }
            if group_before(&gs[x], &gs[order[j]]) {
                break;
            }
            proof {
                let y = order@[j as int];
                assert(order@.contains(y));
                assert(y != x);
                assert(gsv[y as int].key != gsv[x as int].key) by {
                    if y < x {
                        assert(gs@[y as int]@.key != gs@[x as int]@.key);
                    } else {
                        assert(gs@[x as int]@.key != gs@[y as int]@.key);
                    }
                }
                lemma_group_lt_total(gsv[x as int], gsv[y as int]);
            }
            j += 1;
        }
        let ghost old_order = order@;
        order.insert(j, x);
        proof {
            old_order.insert_ensures(j as int, x);
            assert forall|k: int, l: int| 0 <= k < l < order@.len() implies group_lt(
                gsv[order@[k] as int],
                gsv[order@[l] as int],
            ) by {
                if l < j {
                } else if l == j {
                    assert(order@[k] == old_order[k] && order@[l] == x);
                } else if k == j {
                    assert(order@[k] == x && order@[l] == old_order[l - 1]);
                    assert(group_lt(gsv[x as int], gsv[old_order[j as int] as int]));
                    if l - 1 > j {
                        lemma_group_lt_trans(
                            gsv[x as int],
                            gsv[old_order[j as int] as int],
                            gsv[old_order[l - 1] as int],
                        );
                    }
                } else if k < j {
                    if k == l - 1 {
                        assert(group_lt(gsv[old_order[k] as int], gsv[x as int]));
                        assert(false);
                    }
                } else {
                }
            }
            assert forall|x2: usize| order@.contains(x2) <==> (x2 as int) < i + 1 by {
                lemma_insert_contains(old_order, j as int, x, x2);
            }
        }
        i += 1;
    }
    proof {
        let ov = order@.map_values(|x: usize| x as int);
        assert forall|x: int| 0 <= x < gsv.len() implies ov.contains(x) by {
            assert(order@.contains(x as usize));
            let k = choose|k: int| 0 <= k < order@.len() && order@[k] == x as usize;
            assert(ov[k] == x);
        }
        assert(order_ok(gsv, ov));
    }
    order
}

/// The widest key among the groups, in characters.
pub open spec fn max_key_len(gs: Seq<RecurrentPaymentView>) -> int
    decreases gs.len(),
{
    if gs.len() == 0 {
        0
    } else {
        let rest = max_key_len(gs.drop_last());
        if gs.last().key.len() > rest {
            gs.last().key.len() as int
        } else {
            rest
        }
    }
}

/// The maximum is nonnegative and dominates every key length.
pub proof fn lemma_max_key_len(gs: Seq<RecurrentPaymentView>)
    ensures
        max_key_len(gs) >= 0,
        forall|j: int| 0 <= j < gs.len() ==> (#[trigger] gs[j]).key.len() <= max_key_len(gs),
    decreases gs.len(),
{
    if gs.len() > 0 {
        lemma_max_key_len(gs.drop_last());
        assert forall|j: int| 0 <= j < gs.len() implies (#[trigger] gs[j]).key.len()
            <= max_key_len(gs) by {
            if j < gs.len() - 1 {
                assert(gs.drop_last()[j] == gs[j]);
            }
        }
    }
}

/// A group's heading: the emphasized key, the alignment padding, and the
/// emphasized total, displayed as a positive magnitude.
pub open spec fn group_header(st: Style, g: RecurrentPaymentView, mw: int) -> Seq<char> {
    "    "@ + bold_spec(st, g.key) + ": "@ + spaces(mw + 2 - g.key.len()) + " "@ + underline_spec(
        st,
        "Total: "@ + cents_str(-g.total_spent),
    )
}

/// The recurrent-payment lines of the transactions at `rows`, in order.
pub open spec fn short_lines(ts: Seq<TransactionView>, rows: Seq<int>) -> Seq<Seq<char>>
    decreases rows.len(),
{
    if rows.len() == 0 {
        Seq::empty()
    } else {
        short_lines(ts, rows.drop_last()).push(txn_short_line(ts[rows.last()]))
    }
}

/// The blocks of the given groups in the given order: each group's heading
/// followed by its transaction lines.
pub open spec fn groups_lines(
    st: Style,
    ts: Seq<TransactionView>,
    gs: Seq<RecurrentPaymentView>,
    order: Seq<int>,
    mw: int,
) -> Seq<Seq<char>>
    decreases order.len(),
{
    if order.len() == 0 {
        Seq::empty()
    } else {
        groups_lines(st, ts, gs, order.drop_last(), mw) + seq![
            group_header(st, gs[order.last()], mw),
        ] + short_lines(ts, gs[order.last()].rows)
    }
}

/// `key_rows` is never longer than the transaction list.
pub proof fn lemma_key_rows_len(ts: Seq<TransactionView>, k: Seq<char>)
    ensures
        key_rows(ts, k).len() <= ts.len(),
    decreases ts.len(),
{
    if ts.len() > 0 {
        lemma_key_rows_len(ts.drop_last(), k);
    }
}

/// Bounds on a sum over expense rows: nonpositive, and within the per-row
/// limit.
pub proof fn lemma_amount_sum_bounds(ts: Seq<TransactionView>, rows: Seq<int>)
    requires
        forall|l: int| 0 <= l < rows.len() ==> 0 <= #[trigger] rows[l] < ts.len(),
        forall|l: int|
            0 <= l < rows.len() ==> ts[#[trigger] rows[l]].amount <= 0 && -(AMOUNT_LIMIT as int)
                <= ts[rows[l]].amount,
    ensures
        -(rows.len() * AMOUNT_LIMIT as int) <= amount_sum(ts, rows) <= 0,
    decreases rows.len(),
{
    if rows.len() > 0 {
        lemma_amount_sum_bounds(ts, rows.drop_last());
        assert((rows.len() - 1) * AMOUNT_LIMIT as int + AMOUNT_LIMIT as int == rows.len()
            * AMOUNT_LIMIT as int) by (nonlinear_arith);
    }
}

/// Only one index arrangement satisfies `order_ok`: the display order of
/// the groups is a function of the group list alone.
pub proof fn lemma_group_order_pinned(
    gs: Seq<RecurrentPaymentView>,
    o1: Seq<int>,
    o2: Seq<int>,
)
    requires
        order_ok(gs, o1),
        order_ok(gs, o2),
    ensures
        o1 == o2,
{
    assert forall|x: int, y: int|
        !(group_lt(gs[x], gs[y]) && #[trigger] group_lt(gs[y], gs[x])) by {
        lemma_lex_lt_asymmetric(gs[x].key, gs[y].key);
    }
    assert forall|x: int| !#[trigger] group_lt(gs[x], gs[x]) by {
        lemma_lex_lt_asymmetric(gs[x].key, gs[x].key);
    }
    assert forall|x: int| o1.contains(x) <==> o2.contains(x) by {
        if o1.contains(x) {
            let k = choose|k: int| 0 <= k < o1.len() && o1[k] == x;
            assert(0 <= x < gs.len());
        }
        if o2.contains(x) {
            let k = choose|k: int| 0 <= k < o2.len() && o2[k] == x;
            assert(0 <= x < gs.len());
        }
    }
    crate::sort::lemma_sorted_unique(o1, o2, |x: int, y: int| group_lt(gs[x], gs[y]));
}

/// The maximum key length is attained by some group, when any exists.
pub proof fn lemma_max_key_len_attained(gs: Seq<RecurrentPaymentView>)
    requires
        gs.len() > 0,
    ensures
        exists|j: int| 0 <= j < gs.len() && (#[trigger] gs[j]).key.len() == max_key_len(gs),
    decreases gs.len(),
{
    lemma_max_key_len(gs.drop_last());
    if gs.last().key.len() > max_key_len(gs.drop_last()) {
        assert(gs[gs.len() - 1].key.len() == max_key_len(gs));
    } else {
        if gs.len() == 1 {
            assert(gs[0].key.len() == max_key_len(gs));
        } else {
            lemma_max_key_len_attained(gs.drop_last());
            let j = choose|j: int|
                0 <= j < gs.drop_last().len() && (#[trigger] gs.drop_last()[j]).key.len()
                    == max_key_len(gs.drop_last());
            assert(gs[j] == gs.drop_last()[j]);
            assert(gs[j].key.len() == max_key_len(gs));
        }
    }
}

/// Two group lists with the same members have the same maximum key length.
pub proof fn lemma_max_key_len_same_members(
    gs1: Seq<RecurrentPaymentView>,
    gs2: Seq<RecurrentPaymentView>,
)
    requires
        forall|g: RecurrentPaymentView| gs1.contains(g) <==> gs2.contains(g),
    ensures
        max_key_len(gs1) == max_key_len(gs2),
{
    lemma_max_key_len(gs1);
    lemma_max_key_len(gs2);
    if gs1.len() == 0 {
        if gs2.len() > 0 {
            assert(gs2.contains(gs2[0]));
            assert(gs1.contains(gs2[0]));
            assert(false);
        }
    } else {
        if gs2.len() == 0 {
            assert(gs1.contains(gs1[0]));
            assert(gs2.contains(gs1[0]));
            assert(false);
        }
        lemma_max_key_len_attained(gs1);
        lemma_max_key_len_attained(gs2);
        let j1 = choose|j: int|
            0 <= j < gs1.len() && (#[trigger] gs1[j]).key.len() == max_key_len(gs1);
        let j2 = choose|j: int|
            0 <= j < gs2.len() && (#[trigger] gs2[j]).key.len() == max_key_len(gs2);
        assert(gs1.contains(gs1[j1]));
        assert(gs2.contains(gs1[j1]));
        let k2 = choose|k: int| 0 <= k < gs2.len() && gs2[k] == gs1[j1];
        assert(gs2.contains(gs2[j2]));
        assert(gs1.contains(gs2[j2]));
        let k1 = choose|k: int| 0 <= k < gs1.len() && gs1[k] == gs2[j2];
        assert(max_key_len(gs2) >= gs2[k2].key.len());
        assert(max_key_len(gs1) >= gs1[k1].key.len());
    }
}

/// A group list holds exactly the correct groups of the recurring keys, so
/// two lists satisfying `groups_ok` have the same members.
pub proof fn lemma_groups_same_members(
    ts: Seq<TransactionView>,
    gs1: Seq<RecurrentPaymentView>,
    gs2: Seq<RecurrentPaymentView>,
)
    requires
        groups_ok(ts, gs1),
        groups_ok(ts, gs2),
    ensures
        forall|g: RecurrentPaymentView| gs1.contains(g) <==> gs2.contains(g),
{
    assert forall|g: RecurrentPaymentView| gs1.contains(g) implies gs2.contains(g) by {
        let j = choose|j: int| 0 <= j < gs1.len() && gs1[j] == g;
        assert(group_ok(ts, gs1[j]));
        let l = choose|l: int| 0 <= l < gs2.len() && (#[trigger] gs2[l]).key == g.key;
        assert(group_ok(ts, gs2[l]));
        assert(gs2[l] == g);
    }
    assert forall|g: RecurrentPaymentView| gs2.contains(g) implies gs1.contains(g) by {
        let j = choose|j: int| 0 <= j < gs2.len() && gs2[j] == g;
        assert(group_ok(ts, gs2[j]));
        let l = choose|l: int| 0 <= l < gs1.len() && (#[trigger] gs1[l]).key == g.key;
        assert(group_ok(ts, gs1[l]));
        assert(gs1[l] == g);
    }
}

/// The group list read through its display order.
pub open spec fn displayed_groups(
    gs: Seq<RecurrentPaymentView>,
    order: Seq<int>,
) -> Seq<RecurrentPaymentView> {
    Seq::new(order.len() as nat, |k: int| gs[order[k]])
}

/// The displayed sequence of groups — the group list read through its
/// display order — is a function of the transactions alone.
pub proof fn lemma_display_groups_pinned(
    ts: Seq<TransactionView>,
    gs1: Seq<RecurrentPaymentView>,
    o1: Seq<int>,
    gs2: Seq<RecurrentPaymentView>,
    o2: Seq<int>,
)
    requires
        groups_ok(ts, gs1),
        order_ok(gs1, o1),
        groups_ok(ts, gs2),
        order_ok(gs2, o2),
    ensures
        displayed_groups(gs1, o1) == displayed_groups(gs2, o2),
        max_key_len(gs1) == max_key_len(gs2),
{
    lemma_groups_same_members(ts, gs1, gs2);
    lemma_max_key_len_same_members(gs1, gs2);
    let c1 = displayed_groups(gs1, o1);
    let c2 = displayed_groups(gs2, o2);
    assert forall|x: RecurrentPaymentView, y: RecurrentPaymentView|
        !(group_lt(x, y) && #[trigger] group_lt(y, x)) by {
        lemma_lex_lt_asymmetric(x.key, y.key);
    }
    assert forall|x: RecurrentPaymentView| !#[trigger] group_lt(x, x) by {
        lemma_lex_lt_asymmetric(x.key, x.key);
    }
    assert forall|g: RecurrentPaymentView| c1.contains(g) <==> gs1.contains(g) by {
        if c1.contains(g) {
            let k = choose|k: int| 0 <= k < c1.len() && c1[k] == g;
            assert(gs1[o1[k]] == g);
            assert(gs1.contains(gs1[o1[k]]));
        }
        if gs1.contains(g) {
            let j = choose|j: int| 0 <= j < gs1.len() && gs1[j] == g;
            assert(o1.contains(j));
            let k = choose|k: int| 0 <= k < o1.len() && o1[k] == j;
            assert(c1[k] == g);
            assert(c1.contains(c1[k]));
        }
    }
    assert forall|g: RecurrentPaymentView| c2.contains(g) <==> gs2.contains(g) by {
        if c2.contains(g) {
            let k = choose|k: int| 0 <= k < c2.len() && c2[k] == g;
            assert(gs2[o2[k]] == g);
            assert(gs2.contains(gs2[o2[k]]));
        }
        if gs2.contains(g) {
            let j = choose|j: int| 0 <= j < gs2.len() && gs2[j] == g;
            assert(o2.contains(j));
            let k = choose|k: int| 0 <= k < o2.len() && o2[k] == j;
            assert(c2[k] == g);
            assert(c2.contains(c2[k]));
        }
    }
    crate::sort::lemma_sorted_unique(
        c1,
        c2,
        |x: RecurrentPaymentView, y: RecurrentPaymentView| group_lt(x, y),
    );
}

/// The rendered group blocks agree wherever the displayed group sequences
/// agree.
pub proof fn lemma_groups_lines_agree(
    st: Style,
    ts: Seq<TransactionView>,
    gs1: Seq<RecurrentPaymentView>,
    o1: Seq<int>,
    gs2: Seq<RecurrentPaymentView>,
    o2: Seq<int>,
    mw: int,
)
    requires
        o1.len() == o2.len(),
        forall|k: int| 0 <= k < o1.len() ==> gs1[#[trigger] o1[k]] == gs2[#[trigger] o2[k]],
    ensures
        groups_lines(st, ts, gs1, o1, mw) == groups_lines(st, ts, gs2, o2, mw),
    decreases o1.len(),
{
    if o1.len() > 0 {
        assert forall|k: int|
            0 <= k < o1.drop_last().len() implies gs1[#[trigger] o1.drop_last()[k]]
            == gs2[#[trigger] o2.drop_last()[k]] by {
            assert(o1.drop_last()[k] == o1[k] && o2.drop_last()[k] == o2[k]);
        }
        lemma_groups_lines_agree(st, ts, gs1, o1.drop_last(), gs2, o2.drop_last(), mw);
        assert(gs1[o1.last()] == gs2[o2.last()]);
    }
}

/// A counterparty appears among the detector's groups exactly when it has
/// two or more expense transactions; its group then holds exactly those
/// transactions and their sum as its total.
pub proof fn lemma_recurrent_membership(
    ts: Seq<TransactionView>,
    gs: Seq<RecurrentPaymentView>,
    k: Seq<char>,
)
    requires
        groups_ok(ts, gs),
    ensures
        (exists|j: int| 0 <= j < gs.len() && (#[trigger] gs[j]).key == k) <==> is_recurrent(
            ts,
            k,
        ),
        forall|j: int|
            0 <= j < gs.len() && (#[trigger] gs[j]).key == k ==> gs[j].rows == key_rows(ts, k)
                && gs[j].total_spent == amount_sum(ts, key_rows(ts, k)),
{
    if exists|j: int| 0 <= j < gs.len() && (#[trigger] gs[j]).key == k {
        let j = choose|j: int| 0 <= j < gs.len() && (#[trigger] gs[j]).key == k;
        assert(group_ok(ts, gs[j]));
    }
}

/// Renders the recurrent-payments section: heading, blank line, then each
/// recurring group's block in display order.
pub fn print(out: &mut Vec<String>, style: Style, account: &Account)
    requires
        account_wf(account@),
    ensures
        exists|gs: Seq<RecurrentPaymentView>, order: Seq<int>|
            {
                &&& #[trigger] groups_ok(account@.transactions, gs)
                &&& #[trigger] order_ok(gs, order)
                &&& views(final(out)@) == views(old(out)@) + seq![
                    underline_spec(style, "Recurrent payments:"@),
                    Seq::<char>::empty(),
                ] + groups_lines(style, account@.transactions, gs, order, max_key_len(gs))
            },
{
    let ghost ts = account@.transactions;
    let head = underline(style, "Recurrent payments:");
    proof {
        lemma_views_push(out@, head);
    }
    out.push(head);
    let blank = String::new();
    proof {
        lemma_views_push(out@, blank);
    }
    out.push(blank);
    let ghost base = views(out@);
    proof {
        assert(base =~= views(old(out)@) + seq![
            underline_spec(style, "Recurrent payments:"@),
            Seq::<char>::empty(),
        ]);
    }

    let n_txns = account.transactions.len();
    let gs = build_groups(account);
    let ghost gsv = gs@.map_values(|g: RecurrentPayment| g@);
    proof {
        assert forall|j: int, l: int|
            0 <= j < l < gs@.len() implies (#[trigger] gs@[j])@.key != (#[trigger] gs@[l])@.key by {
            assert(gsv[j] == gs@[j]@);
            assert(gsv[l] == gs@[l]@);
        }
    }
    let order = sort_groups(&gs);
    let ghost ov = order@.map_values(|x: usize| x as int);

    let ng = gs.len();
    let mut mw: usize = 0;
    let mut i: usize = 0;
    while i < ng
        invariant
            i <= ng,
            ng == gs@.len(),
            gsv == gs@.map_values(|g: RecurrentPayment| g@),
            mw as int == max_key_len(gsv.take(i as int)),
        decreases ng - i,
    {
        proof {
            assert(gsv.take(i + 1).drop_last() =~= gsv.take(i as int));
            assert(gsv.take(i + 1).last() == gsv[i as int]);
        }
        let l = gs[i].key.as_str().unicode_len();
        if l > mw {
            mw = l;
        }
        i += 1;
    }
    proof {
        assert(gsv.take(ng as int) =~= gsv);
    }

    let non = order.len();
    let mut k: usize = 0;
    while k < non
        invariant
            k <= non,
            non == order@.len(),
            n_txns == ts.len(),
            ts == account@.transactions,
            account_wf(account@),
            gsv == gs@.map_values(|g: RecurrentPayment| g@),
            ov == order@.map_values(|x: usize| x as int),
            groups_ok(ts, gsv),
            order_ok(gsv, ov),
            mw as int == max_key_len(gsv),
            views(out@) == base + groups_lines(style, ts, gsv, ov.take(k as int), mw as int),
        decreases non - k,
    {
        let idx = order[k];
        proof {
            assert(ov[k as int] == idx as int);
            assert(0 <= idx < gsv.len());
        }
        let g = &gs[idx];
        proof {
            assert(g@ == gsv[idx as int]);
            assert(group_ok(ts, gsv[idx as int]));
            lemma_max_key_len(gsv);
        }
        let mut line = String::from_str("    ");
        let b = bold(style, g.key.as_str());
        line.append(b.as_str());
        line.append(": ");
        let klen = g.key.as_str().unicode_len();
        let pad = space_string(mw - klen);
        line.append(pad.as_str());
        line.append("   ");
        let ghost rows = key_rows(ts, gsv[idx as int].key);
        proof {
            lemma_key_rows(ts, gsv[idx as int].key);
            lemma_key_rows_len(ts, gsv[idx as int].key);
            assert forall|l: int|
                0 <= l < rows.len() implies ts[#[trigger] rows[l]].amount <= 0 && -(
                AMOUNT_LIMIT as int) <= ts[rows[l]].amount by {
                assert(rows.contains(rows[l]));
                assert(is_expense_with_key(ts[rows[l]], gsv[idx as int].key));
                assert(txn_wf(ts[rows[l]]));
            }
            lemma_amount_sum_bounds(ts, rows);
            assert(ts.len() * AMOUNT_LIMIT as int <= u64::MAX as int * AMOUNT_LIMIT as int) by (nonlinear_arith)
                requires ts.len() <= u64::MAX as int,
            ;
        }
        let total_text = {
            let mut tt = String::from_str("Total: ");
            let tot = cents_string((-g.total_spent) as u128);
            tt.append(tot.as_str());
            tt
        };
        let u = underline(style, total_text.as_str());
        line.append(u.as_str());
        proof {
            reveal_strlit("Total: ");
            reveal_strlit("    ");
            reveal_strlit(": ");
            reveal_strlit("   ");
            reveal_strlit(" ");
            crate::text::lemma_spaces_all(mw as int - klen as int);
            crate::text::lemma_spaces_all(mw as int + 2 - klen as int);
            assert(spaces(mw as int - klen as int) + "   "@ =~= spaces(
                mw as int + 2 - klen as int,
            ) + " "@);
            assert(line@ =~= group_header(style, gsv[idx as int], mw as int));
            lemma_views_push(out@, line);
        }
        let ghost hdr = group_header(style, gsv[idx as int], mw as int);
        out.push(line);
        let ghost after_hdr = views(out@);

        let m = g.rows.len();
        let ghost rowsv = gsv[idx as int].rows;
        proof {
            assert(rowsv == rows);
            assert(rowsv.take(0) =~= Seq::<int>::empty());
        }
        let mut j: usize = 0;
        while j < m
            invariant
                j <= m,
                m == g.rows@.len(),
                ts == account@.transactions,
                account_wf(account@),
                n_txns == ts.len(),
                (idx as int) < gsv.len(),
                g@ == gsv[idx as int],
                rowsv == gsv[idx as int].rows,
                rowsv == key_rows(ts, gsv[idx as int].key),
                rowsv == g.rows@.map_values(|x: usize| x as int),
                forall|l: int| 0 <= l < rowsv.len() ==> 0 <= #[trigger] rowsv[l] < ts.len(),
                forall|l: int| 0 <= l < rowsv.len() ==> ts[#[trigger] rowsv[l]].amount <= 0,
                views(out@) == after_hdr + short_lines(ts, rowsv.take(j as int)),
            decreases m - j,
        {
            let ridx = g.rows[j];
            proof {
                assert(rowsv[j as int] == ridx as int);
                assert(account.transactions@[ridx as int]@ == ts[ridx as int]);
                assert(rowsv.take(j + 1).drop_last() =~= rowsv.take(j as int));
                assert(rowsv.take(j + 1).last() == ridx as int);
            }
            let t = &account.transactions[ridx];
            t.print_short(out);
            proof {
                assert(views(out@) =~= after_hdr + short_lines(ts, rowsv.take(j + 1)));
            }
            j += 1;
        }
        proof {
            assert(rowsv.take(m as int) =~= rowsv);
            assert(ov.take(k + 1).drop_last() =~= ov.take(k as int));
            assert(ov.take(k + 1).last() == idx as int);
            assert(groups_lines(style, ts, gsv, ov.take(k + 1), mw as int) == groups_lines(
                style,
                ts,
                gsv,
                ov.take(k as int),
                mw as int,
            ) + seq![hdr] + short_lines(ts, rowsv));
            assert(views(out@) =~= base + groups_lines(style, ts, gsv, ov.take(k + 1), mw as int));
        }
        k += 1;
    }
    proof {
        assert(ov.take(non as int) =~= ov);
        assert(views(out@) == base + groups_lines(style, ts, gsv, ov, mw as int));
        assert(views(out@) =~= views(old(out)@) + seq![
            underline_spec(style, "Recurrent payments:"@),
            Seq::<char>::empty(),
        ] + groups_lines(style, ts, gsv, ov, max_key_len(gsv)));
    }
}

} // verus!
