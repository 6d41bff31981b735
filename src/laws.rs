//! Properties of the engine over several transactions.
use crate::account::{fresh_account, ledgers_exclusive, lifecycle_count, AccountView};
use crate::error::TransactionError;
use crate::ledger::{has_id, lemma_insert_entry, lemma_remove_entry, lookup, position_of};
use crate::transactor::{account_of, accounts_wf, process_spec, record_spec};
use crate::types::{Transaction, TransactionId, TransactionType};
use vstd::prelude::*;

verus! {

/// The accounts after processing `ts` in order, rejections recorded.
pub open spec fn run(m: Map<u16, AccountView>, ts: Seq<Transaction>) -> Map<u16, AccountView>
    decreases ts.len(),
{
    if ts.len() == 0 {
        m
    } else {
        run(record_spec(m, ts[0]), ts.subrange(1, ts.len() as int))
    }
}

/// Once an account is locked, no later transaction changes its balances,
/// its lifecycle ledgers, or its lock.
pub proof fn lemma_locked_account_is_frozen(m: Map<u16, AccountView>, ts: Seq<Transaction>, cid: u16)
    requires
        m.contains_key(cid),
        m[cid].is_locked,
    ensures
        run(m, ts).contains_key(cid),
        run(m, ts)[cid] == (AccountView { ignored: run(m, ts)[cid].ignored, ..m[cid] }),
    decreases ts.len(),
{
    if ts.len() > 0 {
        let n = record_spec(m, ts[0]);
        assert(n.contains_key(cid));
        assert(n[cid] == (AccountView { ignored: n[cid].ignored, ..m[cid] }));
        lemma_locked_account_is_frozen(n, ts.subrange(1, ts.len() as int), cid);
    }
}

/// A deposit or withdrawal that reuses the id of a transaction that has
/// moved on in the dispute lifecycle of the same account.
pub open spec fn reuses_lifecycle_id(m: Map<u16, AccountView>, t: Transaction) -> bool {
    let a = account_of(m, t.cid);
    &&& (t.ttype == TransactionType::Deposit || t.ttype == TransactionType::Withdrawal)
    &&& (has_id(a.disputed, t.tid) || has_id(a.resolved, t.tid) || has_id(a.charged_back, t.tid))
}

proof fn lemma_fresh_exclusive(cid: crate::types::ClientId)
    ensures
        ledgers_exclusive(fresh_account(cid)),
{
    let a = fresh_account(cid);
    assert forall|tid: TransactionId| #[trigger] lifecycle_count(a, tid) <= 1 by {}
}

/// A transaction id never sits in two of the lifecycle ledgers of an
/// account, as long as deposits and withdrawals do not reuse the id of a
/// disputed, resolved or charged-back transaction of the same account.
pub proof fn lemma_ledgers_stay_exclusive(m: Map<u16, AccountView>, t: Transaction)
    requires
        accounts_wf(m),
        forall|c: u16| #[trigger] m.contains_key(c) ==> ledgers_exclusive(m[c]),
        !reuses_lifecycle_id(m, t),
    ensures
        forall|c: u16| #[trigger]
            process_spec(m, t).0.contains_key(c) ==> ledgers_exclusive(process_spec(m, t).0[c]),
        forall|c: u16| #[trigger]
            record_spec(m, t).contains_key(c) ==> ledgers_exclusive(record_spec(m, t)[c]),
{
    let a = account_of(m, t.cid);
    if !m.contains_key(t.cid.0) {
        lemma_fresh_exclusive(t.cid);
        crate::account::lemma_fresh_wf(t.cid);
    }
    assert(a.wf());
    assert(ledgers_exclusive(a));
    let (n, r) = process_spec(m, t);
    let b = n[t.cid.0];
    if r is Ok {
        match t.ttype {
            TransactionType::Deposit | TransactionType::Withdrawal => {
                lemma_insert_entry(a.processed, t);
                assert(b.disputed == a.disputed && b.resolved == a.resolved && b.charged_back
                    == a.charged_back);
                assert forall|tid: TransactionId| #[trigger] lifecycle_count(b, tid) <= 1 by {
                    assert(lifecycle_count(a, tid) <= 1);
                }
            },
            TransactionType::Dispute => {
                let d = lookup(a.processed, t.tid)->Some_0;
                assert(a.processed[position_of(a.processed, t.tid)].tid == t.tid);
                lemma_remove_entry(a.processed, t.tid);
                lemma_insert_entry(a.disputed, d);
                assert forall|tid: TransactionId| #[trigger] lifecycle_count(b, tid) <= 1 by {
                    assert(has_id(a.processed, t.tid));
                    assert(lifecycle_count(a, t.tid) <= 1);
                    assert(lifecycle_count(a, tid) <= 1);
                }
            },
            TransactionType::Resolve => {
                let d = lookup(a.disputed, t.tid)->Some_0;
                assert(a.disputed[position_of(a.disputed, t.tid)].tid == t.tid);
                lemma_remove_entry(a.disputed, t.tid);
                lemma_insert_entry(a.resolved, d);
                assert forall|tid: TransactionId| #[trigger] lifecycle_count(b, tid) <= 1 by {
                    assert(has_id(a.disputed, t.tid));
                    assert(lifecycle_count(a, t.tid) <= 1);
                    assert(lifecycle_count(a, tid) <= 1);
                }
            },
            TransactionType::Chargeback => {
                let d = lookup(a.resolved, t.tid)->Some_0;
                assert(a.resolved[position_of(a.resolved, t.tid)].tid == t.tid);
                lemma_remove_entry(a.resolved, t.tid);
                lemma_insert_entry(a.charged_back, d);
                assert forall|tid: TransactionId| #[trigger] lifecycle_count(b, tid) <= 1 by {
                    assert(has_id(a.resolved, t.tid));
                    assert(lifecycle_count(a, t.tid) <= 1);
                    assert(lifecycle_count(a, tid) <= 1);
                }
            },
        }
        assert(ledgers_exclusive(b));
    } else {
        assert(b == a);
    }
    assert forall|c: u16| #[trigger] n.contains_key(c) implies ledgers_exclusive(n[c]) by {
        if c != t.cid.0 {
            assert(m.contains_key(c));
        }
    }
    let q = record_spec(m, t);
    assert forall|c: u16| #[trigger] q.contains_key(c) implies ledgers_exclusive(q[c]) by {
        if c != t.cid.0 {
            assert(n.contains_key(c));
        } else {
            assert(n.contains_key(c));
            let w = q[c];
            assert(w.processed == n[c].processed && w.disputed == n[c].disputed && w.resolved
                == n[c].resolved && w.charged_back == n[c].charged_back);
            assert(ledgers_exclusive(n[c]));
            assert forall|tid: TransactionId| #[trigger] lifecycle_count(w, tid) <= 1 by {
                assert(lifecycle_count(n[c], tid) <= 1);
            }
        }
    }
}

/// Disputing a transaction id that is not among the processed transactions
/// of an unlocked account fails with `NoSuchProcessedTransactionForClient`
/// and changes no account (beyond opening it); trying again gives the same.
pub proof fn lemma_dispute_rejection_is_idempotent(m: Map<u16, AccountView>, t: Transaction)
    requires
        t.ttype == TransactionType::Dispute,
        !account_of(m, t.cid).is_locked,
        !has_id(account_of(m, t.cid).processed, t.tid),
    ensures
        process_spec(m, t).1 == Err::<(), TransactionError>(
            TransactionError::NoSuchProcessedTransactionForClient { tid: t.tid, cid: t.cid },
        ),
        process_spec(m, t).0 == m.insert(t.cid.0, account_of(m, t.cid)),
        process_spec(process_spec(m, t).0, t) == process_spec(m, t),
{
    let n = process_spec(m, t).0;
    assert(account_of(n, t.cid) == account_of(m, t.cid));
    assert(n.insert(t.cid.0, account_of(m, t.cid)) =~= n);
}

} // verus!
