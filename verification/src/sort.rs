//! Display ordering of transactions.
//!
//! The monthly breakdown sorts a month's transactions by amount ascending,
//! ties broken by the entry-date string ascending, and, for fully equal
//! keys, by position in the file (which keeps the file order among equals,
//! as a stable sort would).  Transactions are named by their index into the
//! account's list, so the order is strict and the sorted result is pinned.

use vstd::prelude::*;

use crate::account::{Transaction, TransactionView};
use crate::text::{lemma_lex_lt_asymmetric, lemma_lex_lt_total, lemma_lex_lt_transitive, lex_lt,
    str_eq, str_lt};

verus! {

/// Display order of the transactions at indices `a` and `b` of `ts`.
pub open spec fn row_lt(ts: Seq<TransactionView>, a: int, b: int) -> bool {
    ||| ts[a].amount < ts[b].amount
    ||| (ts[a].amount == ts[b].amount && lex_lt(ts[a].entry_date, ts[b].entry_date))
    ||| (ts[a].amount == ts[b].amount && ts[a].entry_date == ts[b].entry_date && a < b)
}

/// On distinct indices the row order is total and strict.
pub proof fn lemma_row_lt_total(ts: Seq<TransactionView>, a: int, b: int)
    requires
        a != b,
    ensures
        row_lt(ts, a, b) || row_lt(ts, b, a),
        !(row_lt(ts, a, b) && row_lt(ts, b, a)),
{
    lemma_lex_lt_total(ts[a].entry_date, ts[b].entry_date);
    lemma_lex_lt_asymmetric(ts[a].entry_date, ts[b].entry_date);
}

/// The row order is transitive.
pub proof fn lemma_row_lt_trans(ts: Seq<TransactionView>, a: int, b: int, c: int)
    requires
        row_lt(ts, a, b),
        row_lt(ts, b, c),
    ensures
        row_lt(ts, a, c),
{
    if ts[a].amount == ts[b].amount && ts[b].amount == ts[c].amount {
        if lex_lt(ts[a].entry_date, ts[b].entry_date) && lex_lt(
            ts[b].entry_date,
            ts[c].entry_date,
        ) {
            lemma_lex_lt_transitive(ts[a].entry_date, ts[b].entry_date, ts[c].entry_date);
        }
    }
}

/// Pushing an element extends what a sequence contains by that element.
pub proof fn lemma_push_contains<T>(s: Seq<T>, x: T, y: T)
    ensures
        s.push(x).contains(y) <==> (s.contains(y) || y == x),
{
    if s.contains(y) {
        let k = choose|k: int| 0 <= k < s.len() && s[k] == y;
        assert(s.push(x)[k] == y);
    }
    if y == x {
        assert(s.push(x)[s.len() as int] == y);
    }
    if s.push(x).contains(y) {
        let k = choose|k: int| 0 <= k < s.push(x).len() && s.push(x)[k] == y;
        if k < s.len() {
            assert(s[k] == y);
        }
    }
}

/// Inserting an element extends what a sequence contains by that element.
pub proof fn lemma_insert_contains<T>(s: Seq<T>, j: int, x: T, y: T)
    requires
        0 <= j <= s.len(),
    ensures
        s.insert(j, x).contains(y) <==> (s.contains(y) || y == x),
{
    s.insert_ensures(j, x);
    let t = s.insert(j, x);
    if s.contains(y) {
        let k = choose|k: int| 0 <= k < s.len() && s[k] == y;
        if k < j {
            assert(t[k] == y);
        } else {
            assert(t[k + 1] == y);
        }
    }
    if y == x {
        assert(t[j] == y);
    }
    if t.contains(y) {
        let k = choose|k: int| 0 <= k < t.len() && t[k] == y;
        if k < j {
            assert(s[k] == y);
        } else if k > j {
            assert(s[k - 1] == y);
        }
    }
}

/// Two strictly sorted sequences with the same elements are equal: a
/// strictly sorted arrangement of a set is unique.  `lt` need only be
/// asymmetric.
pub proof fn lemma_sorted_unique<T>(a: Seq<T>, b: Seq<T>, lt: spec_fn(T, T) -> bool)
    requires
        forall|k: int, l: int| 0 <= k < l < a.len() ==> lt(a[k], a[l]),
        forall|k: int, l: int| 0 <= k < l < b.len() ==> lt(b[k], b[l]),
        forall|x: T| a.contains(x) <==> b.contains(x),
        forall|x: T, y: T| !(lt(x, y) && #[trigger] lt(y, x)),
        forall|x: T| !#[trigger] lt(x, x),
    ensures
        a == b,
    decreases a.len(),
{
    if a.len() == 0 {
        if b.len() > 0 {
            assert(b.contains(b[0]));
            assert(a.contains(b[0]));
            assert(false);
        }
        assert(a =~= b);
    } else {
        assert(a.contains(a[0]));
        assert(b.contains(a[0]));
        let j = choose|j: int| 0 <= j < b.len() && b[j] == a[0];
        if j > 0 {
            assert(lt(b[0], b[j]));
            assert(b.contains(b[0]));
            assert(a.contains(b[0]));
            let i = choose|i: int| 0 <= i < a.len() && a[i] == b[0];
            if i > 0 {
                assert(lt(a[0], a[i]));
                assert(false);
            } else {
                assert(lt(b[0], b[0]));
                assert(false);
            }
        }
        assert(a[0] == b[0]);
        let at = a.skip(1);
        let bt = b.skip(1);
        assert forall|x: T| at.contains(x) <==> bt.contains(x) by {
            lemma_tail_contains(a, x, lt);
            lemma_tail_contains(b, x, lt);
        }
        assert forall|k: int, l: int| 0 <= k < l < at.len() implies lt(at[k], at[l]) by {
            assert(at[k] == a[k + 1] && at[l] == a[l + 1]);
        }
        assert forall|k: int, l: int| 0 <= k < l < bt.len() implies lt(bt[k], bt[l]) by {
            assert(bt[k] == b[k + 1] && bt[l] == b[l + 1]);
        }
        lemma_sorted_unique(at, bt, lt);
        assert(a =~= b) by {
            assert(forall|i: int| 1 <= i < a.len() ==> a[i] == at[i - 1] && b[i] == bt[i - 1]);
        }
    }
}

/// In a strictly sorted sequence the tail holds exactly the elements other
/// than the head.
proof fn lemma_tail_contains<T>(a: Seq<T>, x: T, lt: spec_fn(T, T) -> bool)
    requires
        a.len() > 0,
        forall|k: int, l: int| 0 <= k < l < a.len() ==> lt(a[k], a[l]),
        forall|y: T| !#[trigger] lt(y, y),
    ensures
        a.skip(1).contains(x) <==> (a.contains(x) && x != a[0]),
{
    let at = a.skip(1);
    if at.contains(x) {
        let k = choose|k: int| 0 <= k < at.len() && at[k] == x;
        assert(a[k + 1] == x);
        assert(a.contains(x));
        if x == a[0] {
            assert(lt(a[0], a[k + 1]));
            assert(false);
        }
    }
    if a.contains(x) && x != a[0] {
        let k = choose|k: int| 0 <= k < a.len() && a[k] == x;
        assert(k > 0);
        assert(at[k - 1] == x);
        assert(at.contains(x));
    }
}

/// Whether the transaction at `a` displays before the one at `b`.
pub fn row_before(txns: &Vec<Transaction>, a: usize, b: usize) -> (r: bool)
    requires
        a < txns@.len(),
        b < txns@.len(),
    ensures
        r == row_lt(txns@.map_values(|t: Transaction| t@), a as int, b as int),
{
    let ta = &txns[a];
    let tb = &txns[b];
    if ta.amount < tb.amount {
        true
    } else if ta.amount == tb.amount {
        if str_lt(ta.entry_date.as_str(), tb.entry_date.as_str()) {
            true
        } else if str_eq(ta.entry_date.as_str(), tb.entry_date.as_str()) {
            a < b
        } else {
            false
        }
    } else {
        false
    }
}

/// Sorts distinct transaction indices into display order.  The result is
/// pinned: it is the strictly `row_lt`-sorted arrangement of exactly the
/// given indices.
pub fn sort_rows(txns: &Vec<Transaction>, rows: &Vec<usize>) -> (r: Vec<usize>)
    requires
        forall|k: int| 0 <= k < rows@.len() ==> (#[trigger] rows@[k]) < txns@.len(),
        forall|k: int, l: int| 0 <= k < l < rows@.len() ==> rows@[k] != rows@[l],
    ensures
        r@.len() == rows@.len(),
        forall|k: int| 0 <= k < r@.len() ==> (#[trigger] r@[k]) < txns@.len(),
        forall|k: int, l: int|
            0 <= k < l < r@.len() ==> row_lt(
                txns@.map_values(|t: Transaction| t@),
                r@[k] as int,
                r@[l] as int,
            ),
        forall|x: usize| r@.contains(x) <==> rows@.contains(x),
{
    let ghost ts = txns@.map_values(|t: Transaction| t@);
    let mut r: Vec<usize> = Vec::new();
    let n = rows.len();
    let mut i: usize = 0;
    while i < n
        invariant
            i <= n,
            n == rows@.len(),
            ts == txns@.map_values(|t: Transaction| t@),
            forall|k: int| 0 <= k < rows@.len() ==> (#[trigger] rows@[k]) < txns@.len(),
            forall|k: int, l: int| 0 <= k < l < rows@.len() ==> rows@[k] != rows@[l],
            r@.len() == i,
            forall|k: int| 0 <= k < r@.len() ==> (#[trigger] r@[k]) < txns@.len(),
            forall|k: int, l: int|
                0 <= k < l < r@.len() ==> row_lt(ts, r@[k] as int, r@[l] as int),
            forall|x: usize| r@.contains(x) <==> rows@.take(i as int).contains(x),
        decreases n - i,
    {
        let x = rows[i];
        proof {
            if r@.contains(x) {
                let k = choose|k: int| 0 <= k < i && rows@.take(i as int)[k] == x;
                assert(rows@[k] == rows@[i as int]);
                assert(false);
            }
        }
        let mut j: usize = 0;
        loop
            invariant
                j <= r@.len(),
                r@.len() == i,
                i < n,
                n == rows@.len(),
                x == rows@[i as int],
                x < txns@.len(),
                ts == txns@.map_values(|t: Transaction| t@),
                !r@.contains(x),
                forall|k: int| 0 <= k < r@.len() ==> (#[trigger] r@[k]) < txns@.len(),
                forall|k: int| 0 <= k < j ==> row_lt(ts, r@[k] as int, x as int),
            ensures
                j <= r@.len(),
                forall|k: int| 0 <= k < j ==> row_lt(ts, r@[k] as int, x as int),
                j < r@.len() ==> row_lt(ts, x as int, r@[j as int] as int),
            decreases r@.len() - j,
        {
            if j >= r.len() {
                break;
            }
            if row_before(txns, x, r[j]) {
                break;
            }
            proof {
                assert(r@[j as int] != x) by {
                    assert(r@.contains(x) <==> exists|k: int| 0 <= k < r@.len() && r@[k] == x);
                    if r@[j as int] == x {
                        assert(r@[j as int] == x && 0 <= j < r@.len());
                    }
                }
                lemma_row_lt_total(ts, x as int, r@[j as int] as int);
            }
            j += 1;
        }
        let ghost old_r = r@;
        r.insert(j, x);
        proof {
            old_r.insert_ensures(j as int, x);
            assert forall|k: int, l: int| 0 <= k < l < r@.len() implies row_lt(
                ts,
                r@[k] as int,
                r@[l] as int,
            ) by {
                if l < j {
                    assert(r@[k] == old_r[k] && r@[l] == old_r[l]);
                } else if l == j {
                    assert(r@[k] == old_r[k] && r@[l] == x);
                } else if k == j {
                    assert(r@[k] == x && r@[l] == old_r[l - 1]);
                    assert(row_lt(ts, x as int, old_r[j as int] as int));
                    if l - 1 > j {
                        assert(row_lt(ts, old_r[j as int] as int, old_r[l - 1] as int));
                        lemma_row_lt_trans(
                            ts,
                            x as int,
                            old_r[j as int] as int,
                            old_r[l - 1] as int,
                        );
                    }
                } else if k < j {
                    assert(r@[k] == old_r[k] && r@[l] == old_r[l - 1]);
                    if k == l - 1 {
                        assert(row_lt(ts, old_r[k] as int, x as int));
                        assert(false);
                    }
                } else {
                    assert(r@[k] == old_r[k - 1] && r@[l] == old_r[l - 1]);
                }
            }
            assert forall|y: usize| r@.contains(y) <==> rows@.take(i + 1).contains(y) by {
                lemma_insert_contains(old_r, j as int, x, y);
                assert(rows@.take(i + 1).drop_last() =~= rows@.take(i as int));
                assert(rows@.take(i + 1) =~= rows@.take(i as int).push(x));
                lemma_push_contains(rows@.take(i as int), x, y);
            }
        }
        i += 1;
    }
    proof {
        assert(rows@.take(n as int) =~= rows@);
    }
    r
}

} // verus!
