//! Transaction-id-keyed ledgers that keep the order of insertion.
use crate::types::{IgnoredTransaction, Transaction, TransactionId};
use vstd::prelude::*;

verus! {

/// No two entries share a transaction id.
pub open spec fn unique_ids(s: Seq<Transaction>) -> bool {
    forall|i: int, j: int|
        0 <= i < s.len() && 0 <= j < s.len() && i != j ==> #[trigger] s[i].tid != #[trigger] s[j].tid
}

/// Some entry has transaction id `tid`.
pub open spec fn has_id(s: Seq<Transaction>, tid: TransactionId) -> bool {
    exists|i: int| 0 <= i < s.len() && #[trigger] s[i].tid == tid
}

/// The position of the entry with id `tid`, or `-1`.
pub open spec fn position_of(s: Seq<Transaction>, tid: TransactionId) -> int {
    if has_id(s, tid) {
        choose|i: int| 0 <= i < s.len() && #[trigger] s[i].tid == tid
    } else {
        -1
    }
}

/// The entry with id `tid`, if there is one.
pub open spec fn lookup(s: Seq<Transaction>, tid: TransactionId) -> Option<Transaction> {
    if has_id(s, tid) {
        Some(s[position_of(s, tid)])
    } else {
        None
    }
}

/// `t` stored under its id: an entry with that id is replaced in place, else
/// `t` goes to the end.
pub open spec fn insert_entry(s: Seq<Transaction>, t: Transaction) -> Seq<Transaction> {
    if has_id(s, t.tid) {
        s.update(position_of(s, t.tid), t)
    } else {
        s.push(t)
    }
}

/// The entry with id `tid` taken out, the others kept in order.
pub open spec fn remove_entry(s: Seq<Transaction>, tid: TransactionId) -> Seq<Transaction> {
    if has_id(s, tid) {
        s.remove(position_of(s, tid))
    } else {
        s
    }
}

pub proof fn lemma_position_of(s: Seq<Transaction>, tid: TransactionId, i: int)
    requires
        unique_ids(s),
        0 <= i < s.len(),
        s[i].tid == tid,
    ensures
        has_id(s, tid),
        position_of(s, tid) == i,
{
    assert(has_id(s, tid));
    let j = position_of(s, tid);
    assert(s[j].tid == tid);
}

pub proof fn lemma_insert_entry(s: Seq<Transaction>, t: Transaction)
    requires
        unique_ids(s),
    ensures
        unique_ids(insert_entry(s, t)),
        has_id(insert_entry(s, t), t.tid),
        forall|id: TransactionId| id != t.tid ==> has_id(insert_entry(s, t), id) == has_id(s, id),
{
    let r = insert_entry(s, t);
    if has_id(s, t.tid) {
        let p = position_of(s, t.tid);
        assert(r[p].tid == t.tid);
        assert forall|id: TransactionId| id != t.tid implies has_id(r, id) == has_id(s, id) by {
            if has_id(s, id) {
                let k = choose|k: int| 0 <= k < s.len() && #[trigger] s[k].tid == id;
                assert(r[k].tid == id);
            }
            if has_id(r, id) {
                let k = choose|k: int| 0 <= k < r.len() && #[trigger] r[k].tid == id;
                assert(s[k].tid == id);
            }
        }
    } else {
        assert(r[s.len() as int].tid == t.tid);
        assert forall|id: TransactionId| id != t.tid implies has_id(r, id) == has_id(s, id) by {
            if has_id(s, id) {
                let k = choose|k: int| 0 <= k < s.len() && #[trigger] s[k].tid == id;
                assert(r[k].tid == id);
            }
            if has_id(r, id) {
                let k = choose|k: int| 0 <= k < r.len() && #[trigger] r[k].tid == id;
                assert(s[k].tid == id);
            }
        }
    }
}

pub proof fn lemma_remove_entry(s: Seq<Transaction>, tid: TransactionId)
    requires
        unique_ids(s),
    ensures
        unique_ids(remove_entry(s, tid)),
        !has_id(remove_entry(s, tid), tid),
        forall|id: TransactionId| id != tid ==> has_id(remove_entry(s, tid), id) == has_id(s, id),
        forall|i: int|
            0 <= i < remove_entry(s, tid).len() ==> s.contains(#[trigger] remove_entry(s, tid)[i]),
{
    let r = remove_entry(s, tid);
    if has_id(s, tid) {
        let p = position_of(s, tid);
        assert forall|i: int| 0 <= i < r.len() implies r[i] == s[if i < p { i } else { i + 1 }] by {
        }
        assert forall|i: int| 0 <= i < r.len() implies s.contains(#[trigger] r[i]) by {
            let k = if i < p { i } else { i + 1 };
            assert(s[k] == r[i]);
        }
        assert(!has_id(r, tid)) by {
            if has_id(r, tid) {
                let k = choose|k: int| 0 <= k < r.len() && #[trigger] r[k].tid == tid;
                let kk = if k < p { k } else { k + 1 };
                assert(s[kk].tid == tid);
            }
        }
        assert forall|id: TransactionId| id != tid implies has_id(r, id) == has_id(s, id) by {
            if has_id(s, id) {
                let k = choose|k: int| 0 <= k < s.len() && #[trigger] s[k].tid == id;
                assert(k != p);
                let kk = if k < p { k } else { k - 1 };
                assert(r[kk].tid == id);
            }
            if has_id(r, id) {
                let k = choose|k: int| 0 <= k < r.len() && #[trigger] r[k].tid == id;
                let kk = if k < p { k } else { k + 1 };
                assert(s[kk].tid == id);
            }
        }
    } else {
        assert forall|i: int| 0 <= i < r.len() implies s.contains(#[trigger] r[i]) by {
            assert(s[i] == r[i]);
        }
    }
}

/// The transactions of one lifecycle stage, keyed by id, in insertion order.
pub struct TransactionLedger {
    entries: Vec<Transaction>,
}

impl View for TransactionLedger {
    type V = Seq<Transaction>;

    closed spec fn view(&self) -> Seq<Transaction> {
        self.entries@
    }
}

impl TransactionLedger {
    pub fn new() -> (r: TransactionLedger)
        ensures
            r@ == Seq::<Transaction>::empty(),
    {
        TransactionLedger { entries: Vec::new() }
    }

    /// The position of the entry with id `tid`.
    fn find(&self, tid: TransactionId) -> (r: Option<usize>)
        requires
            unique_ids(self@),
        ensures
            match r {
                Some(i) => i as int == position_of(self@, tid) && has_id(self@, tid),
                None => !has_id(self@, tid),
            },
    {
        let mut i: usize = 0;
        while i < self.entries.len()
            invariant
                i <= self.entries@.len(),
                self@ == self.entries@,
                unique_ids(self@),
                forall|k: int| 0 <= k < i ==> #[trigger] self.entries@[k].tid != tid,
            decreases self.entries@.len() - i,
        {
            if self.entries[i].tid.0 == tid.0 {
                proof {
                    lemma_position_of(self@, tid, i as int);
                }
                return Some(i);
            }
            i = i + 1;
        }
        None
    }

    /// The entry with id `tid`, if there is one.
    pub fn get(&self, tid: TransactionId) -> (r: Option<Transaction>)
        requires
            unique_ids(self@),
        ensures
            r == lookup(self@, tid),
    {
        match self.find(tid) {
            Some(i) => Some(self.entries[i]),
            None => None,
        }
    }

    /// Stores `t` under its id.
    pub fn insert(&mut self, t: Transaction)
        requires
            unique_ids(old(self)@),
        ensures
            final(self)@ == insert_entry(old(self)@, t),
    {
        match self.find(t.tid) {
            Some(i) => {
                self.entries.set(i, t);
            },
            None => {
                self.entries.push(t);
            },
        }
    }

    /// Takes out the entry with id `tid`, if there is one.
    pub fn remove(&mut self, tid: TransactionId) -> (r: Option<Transaction>)
        requires
            unique_ids(old(self)@),
        ensures
            r == lookup(old(self)@, tid),
            final(self)@ == remove_entry(old(self)@, tid),
    {
        match self.find(tid) {
            Some(i) => Some(self.entries.remove(i)),
            None => None,
        }
    }

    /// The entries as `(id, transaction)` pairs, in insertion order.
    pub fn entries(&self) -> (r: Vec<(TransactionId, Transaction)>)
        ensures
            r@.len() == self@.len(),
            forall|i: int| 0 <= i < r@.len() ==> #[trigger] r@[i] == (self@[i].tid, self@[i]),
    {
        let mut r: Vec<(TransactionId, Transaction)> = Vec::new();
        let mut i: usize = 0;
        while i < self.entries.len()
            invariant
                i <= self.entries@.len(),
                self@ == self.entries@,
                r@.len() == i,
                forall|k: int| 0 <= k < i ==> #[trigger] r@[k] == (self@[k].tid, self@[k]),
            decreases self.entries@.len() - i,
        {
            let t = self.entries[i];
            r.push((t.tid, t));
            i = i + 1;
        }
        r
    }
}

/// The rejected transactions of an account, keyed by id, in insertion order:
/// a later rejection under the same id replaces the earlier one in place.
pub struct IgnoredLedger {
    entries: Vec<IgnoredTransaction>,
}

impl View for IgnoredLedger {
    type V = Seq<IgnoredTransaction>;

    closed spec fn view(&self) -> Seq<IgnoredTransaction> {
        self.entries@
    }
}

/// The position of the rejection of transaction `tid`, or `-1`.
pub open spec fn ignored_position(s: Seq<IgnoredTransaction>, tid: TransactionId) -> int {
    if exists|i: int| 0 <= i < s.len() && #[trigger] s[i].transaction.tid == tid {
        choose|i: int| 0 <= i < s.len() && #[trigger] s[i].transaction.tid == tid
    } else {
        -1
    }
}

/// `t` stored under its transaction's id.
pub open spec fn insert_ignored(s: Seq<IgnoredTransaction>, t: IgnoredTransaction) -> Seq<
    IgnoredTransaction,
> {
    let p = ignored_position(s, t.transaction.tid);
    if p >= 0 {
        s.update(p, t)
    } else {
        s.push(t)
    }
}

/// No two rejections share a transaction id.
pub open spec fn unique_ignored(s: Seq<IgnoredTransaction>) -> bool {
    forall|i: int, j: int|
        0 <= i < s.len() && 0 <= j < s.len() && i != j ==> #[trigger] s[i].transaction.tid
            != #[trigger] s[j].transaction.tid
}

impl IgnoredLedger {
    pub fn new() -> (r: IgnoredLedger)
        ensures
            r@ == Seq::<IgnoredTransaction>::empty(),
    {
        IgnoredLedger { entries: Vec::new() }
    }

    /// Stores `t` under its transaction's id.
    pub fn insert(&mut self, t: IgnoredTransaction)
        requires
            unique_ignored(old(self)@),
        ensures
            final(self)@ == insert_ignored(old(self)@, t),
            unique_ignored(final(self)@),
    {
        let tid = t.transaction.tid;
        let mut i: usize = 0;
        while i < self.entries.len()
            invariant
                i <= self.entries@.len(),
                self@ == self.entries@,
                self@ == old(self)@,
                unique_ignored(self@),
                tid == t.transaction.tid,
                forall|k: int| 0 <= k < i ==> #[trigger] self.entries@[k].transaction.tid != tid,
            decreases self.entries@.len() - i,
        {
            if self.entries[i].transaction.tid.0 == tid.0 {
                let ghost s0 = self@;
                proof {
                    assert(s0[i as int].transaction.tid == tid);
                    let p = ignored_position(s0, tid);
                    assert(s0[p].transaction.tid == tid);
                    assert(p == i);
                }
                self.entries.set(i, t);
                proof {
                    let s = self@;
                    assert(s == s0.update(i as int, t));
                    assert forall|a: int, b: int|
                        0 <= a < s.len() && 0 <= b < s.len() && a != b implies #[trigger] s[a].transaction.tid
                        != #[trigger] s[b].transaction.tid by {
                        assert(s0[a].transaction.tid != s0[b].transaction.tid);
                        assert(s0.update(i as int, t)[a].transaction.tid == s0[a].transaction.tid);
                        assert(s0.update(i as int, t)[b].transaction.tid == s0[b].transaction.tid);
                    }
                }
                return;
            }
            i = i + 1;
        }
        self.entries.push(t);
    }

    /// The rejections as `(id, rejection)` pairs, in insertion order.
    pub fn entries(&self) -> (r: Vec<(TransactionId, IgnoredTransaction)>)
        ensures
            r@.len() == self@.len(),
            forall|i: int|
                0 <= i < r@.len() ==> #[trigger] r@[i] == (self@[i].transaction.tid, self@[i]),
    {
        let mut r: Vec<(TransactionId, IgnoredTransaction)> = Vec::new();
        let mut i: usize = 0;
        while i < self.entries.len()
            invariant
                i <= self.entries@.len(),
                self@ == self.entries@,
                r@.len() == i,
                forall|k: int|
                    0 <= k < i ==> #[trigger] r@[k] == (self@[k].transaction.tid, self@[k]),
            decreases self.entries@.len() - i,
        {
            let t = self.entries[i];
            r.push((t.transaction.tid, t));
            i = i + 1;
        }
        r
    }
}

} // verus!
