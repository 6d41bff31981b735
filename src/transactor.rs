//! The ledger engine: it owns every account and applies one transaction at a
//! time.
use crate::account::{
    amounts_in_range, chargeback_spec, deposit_spec, dispute_spec, fresh_account, handle_spec,
    rebalance, resolve_spec, with_ignored, withdraw_spec, Account, AccountView,
};
use crate::currency::Currency;
use crate::csv::{header_spec, record_read, skipped_line, CsvReader};
use crate::error::{AppError, TransactionError};
use crate::ledger::{
    has_id, insert_entry, lemma_insert_entry, lemma_remove_entry, lookup, position_of, remove_entry,
    unique_ids,
};
use crate::types::{ClientId, IgnoredTransaction, Transaction, TransactionType};
use std::collections::BTreeMap;
use vstd::prelude::*;

verus! {

broadcast use vstd::std_specs::btree::group_btree_axioms, vstd::laws_cmp::group_laws_cmp;

/// Every account is well formed and filed under its own id.
pub open spec fn accounts_wf(m: Map<u16, AccountView>) -> bool {
    forall|c: u16| #[trigger] m.contains_key(c) ==> m[c].wf() && m[c].id == ClientId(c)
}

/// The account of client `cid`, or the empty account that a first reference
/// opens.
pub open spec fn account_of(m: Map<u16, AccountView>, cid: ClientId) -> AccountView {
    if m.contains_key(cid.0) {
        m[cid.0]
    } else {
        fresh_account(cid)
    }
}

/// What transaction `t` does to account `a`: a locked account rejects it; on
/// a rejection the account is left as it was.
pub open spec fn account_step(a: AccountView, t: Transaction) -> (AccountView, Result<(), TransactionError>) {
    if a.is_locked {
        (a, Err(TransactionError::AccountIsLocked { cid: t.cid }))
    } else {
        match handle_spec(a, t) {
            Ok(b) => (b, Ok(())),
            Err(e) => (a, Err(e)),
        }
    }
}

/// What processing `t` does to the accounts, and its outcome. The account of
/// `t.cid` exists afterwards whatever the outcome.
pub open spec fn process_spec(m: Map<u16, AccountView>, t: Transaction) -> (
    Map<u16, AccountView>,
    Result<(), TransactionError>,
) {
    let (b, r) = account_step(account_of(m, t.cid), t);
    (m.insert(t.cid.0, b), r)
}

/// Processing `t` with rejections recorded against the account.
pub open spec fn record_spec(m: Map<u16, AccountView>, t: Transaction) -> Map<u16, AccountView> {
    let (n, r) = process_spec(m, t);
    match r {
        Ok(()) => n,
        Err(e) => n.insert(
            t.cid.0,
            with_ignored(n[t.cid.0], IgnoredTransaction { transaction: t, reason: e }),
        ),
    }
}

proof fn lemma_wf_balanced(a: AccountView)
    requires
        a.wf(),
    ensures
        a.balanced(),
{
}

proof fn lemma_lookup_in_range(s: Seq<Transaction>, tid: crate::types::TransactionId)
    requires
        amounts_in_range(s),
        lookup(s, tid) is Some,
    ensures
        lookup(s, tid)->Some_0.tid == tid,
        lookup(s, tid)->Some_0.amount matches Some(x) && x.wf(),
{
    let p = position_of(s, tid);
    assert(s[p].tid == tid);
}

proof fn lemma_insert_in_range(s: Seq<Transaction>, t: Transaction)
    requires
        amounts_in_range(s),
        unique_ids(s),
        t.amount matches Some(x) && x.wf(),
    ensures
        amounts_in_range(insert_entry(s, t)),
        unique_ids(insert_entry(s, t)),
{
    lemma_insert_entry(s, t);
    let r = insert_entry(s, t);
    assert forall|i: int| 0 <= i < r.len() implies (#[trigger] r[i]).amount matches Some(x)
        && x.wf() by {
        if i < s.len() && r[i] != t {
            assert(r[i] == s[i]);
        }
    }
}

proof fn lemma_remove_in_range(s: Seq<Transaction>, tid: crate::types::TransactionId)
    requires
        amounts_in_range(s),
        unique_ids(s),
    ensures
        amounts_in_range(remove_entry(s, tid)),
        unique_ids(remove_entry(s, tid)),
{
    lemma_remove_entry(s, tid);
    let r = remove_entry(s, tid);
    assert forall|i: int| 0 <= i < r.len() implies (#[trigger] r[i]).amount matches Some(x)
        && x.wf() by {
        assert(s.contains(r[i]));
        let k = choose|k: int| 0 <= k < s.len() && s[k] == r[i];
        assert(s[k].amount matches Some(x) && x.wf());
    }
}

/// The engine. It owns the accounts, keyed by client id.
pub struct Transactor {
    accounts: BTreeMap<u16, Account>,
}

impl View for Transactor {
    type V = Map<u16, AccountView>;

    closed spec fn view(&self) -> Map<u16, AccountView> {
        self.accounts@.map_values(|a: Account| a@)
    }
}

impl Transactor {
    pub open spec fn wf(&self) -> bool {
        accounts_wf(self@)
    }

    /// An engine without accounts.
    pub fn new() -> (r: Transactor)
        ensures
            r.wf(),
            r@ == Map::<u16, AccountView>::empty(),
    {
        let r = Transactor { accounts: BTreeMap::new() };
        assert(r@ =~= Map::<u16, AccountView>::empty());
        r
    }

    /// The account of client `cid`, if it has been referenced.
    pub fn account(&self, cid: ClientId) -> (r: Option<&Account>)
        ensures
            r is Some <==> self@.contains_key(cid.0),
            r matches Some(a) ==> a@ == self@[cid.0],
    {
        self.accounts.get(&cid.0)
    }

    /// The ids of all accounts, in ascending order.
    pub fn client_ids(&self) -> (r: Vec<ClientId>)
        ensures
            forall|i: int, j: int| 0 <= i < j < r@.len() ==> r@[i].0 < r@[j].0,
            forall|c: u16|
                self@.contains_key(c) <==> exists|i: int|
                    0 <= i < r@.len() && (#[trigger] r@[i]).0 == c,
    {
        let mut r: Vec<ClientId> = Vec::new();
        let mut k: u32 = 0;
        while k <= 0xffff
            invariant
                k <= 0x10000,
                forall|i: int, j: int| 0 <= i < j < r@.len() ==> r@[i].0 < r@[j].0,
                forall|i: int| 0 <= i < r@.len() ==> (#[trigger] r@[i]).0 < k,
                forall|c: u16|
                    c < k ==> (self@.contains_key(c) <==> exists|i: int|
                        0 <= i < r@.len() && (#[trigger] r@[i]).0 == c),
            decreases 0x10000 - k,
        {
            let c = k as u16;
            let present = self.accounts.contains_key(&c);
            let ghost before = r@;
            if present {
                r.push(ClientId(c));
            }
            proof {
                assert forall|d: u16| d < k + 1 implies (self@.contains_key(d) <==> exists|i: int|
                    0 <= i < r@.len() && (#[trigger] r@[i]).0 == d) by {
                    if d < k {
                        if exists|i: int| 0 <= i < before.len() && (#[trigger] before[i]).0 == d {
                            let i = choose|i: int| 0 <= i < before.len() && (#[trigger] before[i]).0 == d;
                            assert(r@[i] == before[i]);
                        }
                        if exists|i: int| 0 <= i < r@.len() && (#[trigger] r@[i]).0 == d {
                            let i = choose|i: int| 0 <= i < r@.len() && (#[trigger] r@[i]).0 == d;
                            assert(i < before.len());
                            assert(r@[i] == before[i]);
                        }
                    } else {
                        assert(d == c);
                        if present {
                            assert(r@[before.len() as int].0 == d);
                        } else {
                            if exists|i: int| 0 <= i < r@.len() && (#[trigger] r@[i]).0 == d {
                                let i = choose|i: int| 0 <= i < r@.len() && (#[trigger] r@[i]).0 == d;
                                assert(r@[i].0 < k);
                            }
                        }
                    }
                }
            }
            k = k + 1;
        }
        r
    }

    /// Opens an empty account for client `cid` unless it has one.
    pub fn ensure_client_account_exists(&mut self, cid: ClientId) -> (r: Result<(), TransactionError>)
        requires
            old(self).wf(),
        ensures
            final(self).wf(),
            r is Ok,
            final(self)@ == old(self)@.insert(cid.0, account_of(old(self)@, cid)),
    {
        if !self.accounts.contains_key(&cid.0) {
            self.accounts.insert(cid.0, Account::new(cid));
        }
        assert(self@ =~= old(self)@.insert(cid.0, account_of(old(self)@, cid)));
        Ok(())
    }

    /// Takes the account of `cid` out of the map, opening an empty one if it
    /// has none.
    fn take_account(&mut self, cid: ClientId) -> (r: Account)
        requires
            old(self).wf(),
        ensures
            final(self).wf(),
            final(self)@ == old(self)@.remove(cid.0),
            r@ == account_of(old(self)@, cid),
            r@.wf(),
    {
        let r = match self.accounts.remove(&cid.0) {
            Some(a) => a,
            None => Account::new(cid),
        };
        assert(self@ =~= old(self)@.remove(cid.0));
        r
    }

    /// Files account `a` under `cid`.
    fn put_account(&mut self, cid: ClientId, a: Account)
        requires
            old(self).wf(),
            a@.wf(),
            a@.id == cid,
        ensures
            final(self).wf(),
            final(self)@ == old(self)@.insert(cid.0, a@),
    {
        let ghost v = a@;
        self.accounts.insert(cid.0, a);
        assert(self@ =~= old(self)@.insert(cid.0, v));
    }

    /// Processes one transaction. On a rejection nothing changes but that the
    /// account of `t.cid` exists.
    pub fn process_transaction(&mut self, t: Transaction) -> (r: Result<(), TransactionError>)
        requires
            old(self).wf(),
        ensures
            final(self).wf(),
            (final(self)@, r) == process_spec(old(self)@, t),
            forall|c: u16| #[trigger] final(self)@.contains_key(c) ==> final(self)@[c].balanced(),
            account_of(old(self)@, t.cid).is_locked ==> r == Err::<(), TransactionError>(
                TransactionError::AccountIsLocked { cid: t.cid },
            ) && final(self)@[t.cid.0] == old(self)@[t.cid.0],
            t.ttype == TransactionType::Dispute && !account_of(old(self)@, t.cid).is_locked
                && !has_id(account_of(old(self)@, t.cid).processed, t.tid) ==> r == Err::<
                (),
                TransactionError,
            >(TransactionError::NoSuchProcessedTransactionForClient { tid: t.tid, cid: t.cid })
                && final(self)@ == old(self)@.insert(t.cid.0, account_of(old(self)@, t.cid)),
    {
        let mut account = self.take_account(t.cid);
        let r = Self::dispatch(&mut account, &t);
        self.put_account(t.cid, account);
        proof {
            assert forall|c: u16| #[trigger] self@.contains_key(c) implies self@[c].balanced() by {
                lemma_wf_balanced(self@[c]);
            }
        }
        r
    }

    /// Processes one transaction and, on a rejection, records it with its
    /// reason against the account. Processing of further transactions can go
    /// on either way.
    pub fn process_or_ignore(&mut self, t: Transaction) -> (r: Result<(), TransactionError>)
        requires
            old(self).wf(),
        ensures
            final(self).wf(),
            final(self)@ == record_spec(old(self)@, t),
            r == process_spec(old(self)@, t).1,
            forall|c: u16| #[trigger] final(self)@.contains_key(c) ==> final(self)@[c].balanced(),
    {
        let mut account = self.take_account(t.cid);
        let r = Self::dispatch(&mut account, &t);
        match r {
            Ok(()) => {},
            Err(e) => {
                account.ignore(t, e);
            },
        }
        self.put_account(t.cid, account);
        proof {
            assert forall|c: u16| #[trigger] self@.contains_key(c) implies self@[c].balanced() by {
                lemma_wf_balanced(self@[c]);
            }
        }
        r
    }

    /// Reads one line of input and processes the record it holds. A rejected
    /// transaction is recorded against its account and the run goes on; a
    /// line that is not a record gives the error that ends the run.
    pub fn process_line(&mut self, reader: &mut CsvReader, line: &[u8]) -> (r: Result<
        (),
        AppError,
    >)
        requires
            old(self).wf(),
        ensures
            final(self).wf(),
            final(reader).line == if old(reader).line < usize::MAX {
                (old(reader).line + 1) as usize
            } else {
                old(reader).line
            },
            skipped_line(line@) ==> r is Ok && final(self)@ == old(self)@ && final(reader).header
                == old(reader).header,
            !skipped_line(line@) && old(reader).header is None ==> final(self)@ == old(self)@
                && match header_spec(line@, final(reader).line) {
                Ok(h) => r is Ok && final(reader).header == Some(h),
                Err(e) => r == Err::<(), AppError>(e) && final(reader).header is None,
            },
            !skipped_line(line@) && old(reader).header is Some ==> final(reader).header == old(
                reader,
            ).header,
            !skipped_line(line@) && old(reader).header is Some && r is Err ==> final(self)@ == old(
                self,
            )@ && record_read(
                old(reader).header->Some_0,
                line@,
                final(reader).line,
                Err(r->Err_0),
            ),
            !skipped_line(line@) && old(reader).header is Some && r is Ok ==> exists|t: Transaction|
                record_read(old(reader).header->Some_0, line@, final(reader).line, Ok(t))
                    && #[trigger] record_spec(old(self)@, t) == final(self)@,
    {
        match reader.parse_line(line) {
            None => Ok(()),
            Some(Err(e)) => Err(e),
            Some(Ok(t)) => {
                let _ = self.process_or_ignore(t);
                Ok(())
            },
        }
    }

    /// Locks the account of `cid` (opening it first if needed), as a
    /// chargeback would, unless it is locked already.
    pub fn freeze_account(&mut self, cid: ClientId) -> (r: Result<(), TransactionError>)
        requires
            old(self).wf(),
        ensures
            final(self).wf(),
            account_of(old(self)@, cid).is_locked ==> r == Err::<(), TransactionError>(
                TransactionError::AccountIsLocked { cid },
            ) && final(self)@ == old(self)@.insert(cid.0, account_of(old(self)@, cid)),
            !account_of(old(self)@, cid).is_locked ==> r is Ok && final(self)@ == old(self)@.insert(
                cid.0,
                AccountView { is_locked: true, ..account_of(old(self)@, cid) },
            ),
    {
        let mut account = self.take_account(cid);
        let r = Self::ensure_account_is_not_locked(&account);
        if r.is_ok() {
            account.freeze();
        }
        self.put_account(cid, account);
        r
    }

    /// Checks the account, then hands the transaction to its handler.
    fn dispatch(account: &mut Account, t: &Transaction) -> (r: Result<(), TransactionError>)
        requires
            old(account)@.wf(),
            old(account)@.id == t.cid,
        ensures
            final(account)@.wf(),
            final(account)@.id == t.cid,
            (final(account)@, r) == account_step(old(account)@, *t),
    {
        if let Err(e) = Self::ensure_account_is_not_locked(account) {
            return Err(e);
        }
        proof {
            lemma_wf_balanced(account@);
        }
        if let Err(e) = Self::ensure_account_balance_invariant(account) {
            return Err(e);
        }
        let r = match t.ttype {
            TransactionType::Deposit => Self::deposit(account, t),
            TransactionType::Withdrawal => Self::withdraw(account, t),
            TransactionType::Dispute => Self::dispute(account, t),
            TransactionType::Resolve => Self::resolve(account, t),
            TransactionType::Chargeback => Self::chargeback(account, t),
        };
        r
    }

    /// Handles a deposit.
    pub fn deposit(account: &mut Account, t: &Transaction) -> (r: Result<(), TransactionError>)
        requires
            old(account)@.wf(),
            old(account)@.id == t.cid,
        ensures
            final(account)@.wf(),
            final(account)@.id == t.cid,
            match deposit_spec(old(account)@, *t) {
                Ok(b) => r == Ok::<(), TransactionError>(()) && final(account)@ == b,
                Err(e) => r == Err::<(), TransactionError>(e) && final(account)@ == old(account)@,
            },
    {
        let amount = match t.amount {
            Some(a) => a,
            None => return Err(TransactionError::MalformedInputData),
        };
        if !amount.is_valid() {
            return Err(TransactionError::AmountOutOfRange { cid: account.id });
        }
        if !rebalance(account, amount, 1, 0, 1) {
            return Err(TransactionError::AmountOutOfRange { cid: account.id });
        }
        proof {
            lemma_wf_balanced(account@);
            lemma_insert_in_range(account@.processed, *t);
        }
        if let Err(e) = Self::ensure_account_balance_invariant(account) {
            return Err(e);
        }
        account.processed_transactions.insert(*t);
        Ok(())
    }

    /// Handles a withdrawal.
    pub fn withdraw(account: &mut Account, t: &Transaction) -> (r: Result<(), TransactionError>)
        requires
            old(account)@.wf(),
            old(account)@.id == t.cid,
        ensures
            final(account)@.wf(),
            final(account)@.id == t.cid,
            match withdraw_spec(old(account)@, *t) {
                Ok(b) => r == Ok::<(), TransactionError>(()) && final(account)@ == b,
                Err(e) => r == Err::<(), TransactionError>(e) && final(account)@ == old(account)@,
            },
    {
        let amount = match t.amount {
            Some(a) => a,
            None => return Err(TransactionError::MalformedInputData),
        };
        if !amount.is_valid() {
            return Err(TransactionError::AmountOutOfRange { cid: account.id });
        }
        if let Err(e) = Self::ensure_account_has_sufficient_funds_available(account, amount) {
            return Err(e);
        }
        if !rebalance(account, amount, -1, 0, -1) {
            return Err(TransactionError::AmountOutOfRange { cid: account.id });
        }
        proof {
            lemma_wf_balanced(account@);
            lemma_insert_in_range(account@.processed, *t);
        }
        if let Err(e) = Self::ensure_account_balance_invariant(account) {
            return Err(e);
        }
        account.processed_transactions.insert(*t);
        Ok(())
    }

    /// Handles a dispute of a processed transaction.
    pub fn dispute(account: &mut Account, t: &Transaction) -> (r: Result<(), TransactionError>)
        requires
            old(account)@.wf(),
            old(account)@.id == t.cid,
        ensures
            final(account)@.wf(),
            final(account)@.id == t.cid,
            match dispute_spec(old(account)@, *t) {
                Ok(b) => r == Ok::<(), TransactionError>(()) && final(account)@ == b,
                Err(e) => r == Err::<(), TransactionError>(e) && final(account)@ == old(account)@,
            },
    {
        let disputed = match account.processed_transactions.get(t.tid) {
            Some(d) => d,
            None => {
                return Err(
                    TransactionError::NoSuchProcessedTransactionForClient {
                        tid: t.tid,
                        cid: account.id,
                    },
                )
            },
        };
        proof {
            lemma_lookup_in_range(account@.processed, t.tid);
        }
        let amount = match disputed.amount {
            Some(a) => a,
            None => return Err(TransactionError::MalformedInputData),
        };
        if !rebalance(account, amount, -1, 1, 0) {
            return Err(TransactionError::AmountOutOfRange { cid: account.id });
        }
        proof {
            lemma_wf_balanced(account@);
            lemma_insert_in_range(account@.disputed, disputed);
            lemma_remove_in_range(account@.processed, t.tid);
        }
        if let Err(e) = Self::ensure_account_balance_invariant(account) {
            return Err(e);
        }
        account.disputed_transactions.insert(disputed);
        let _ = account.processed_transactions.remove(t.tid);
        Ok(())
    }

    /// Handles the resolution of a disputed transaction.
    pub fn resolve(account: &mut Account, t: &Transaction) -> (r: Result<(), TransactionError>)
        requires
            old(account)@.wf(),
            old(account)@.id == t.cid,
        ensures
            final(account)@.wf(),
            final(account)@.id == t.cid,
            match resolve_spec(old(account)@, *t) {
                Ok(b) => r == Ok::<(), TransactionError>(()) && final(account)@ == b,
                Err(e) => r == Err::<(), TransactionError>(e) && final(account)@ == old(account)@,
            },
    {
        let disputed = match account.disputed_transactions.get(t.tid) {
            Some(d) => d,
            None => {
                return Err(
                    TransactionError::NoSuchDisputedTransactionForClient {
                        tid: t.tid,
                        cid: account.id,
                    },
                )
            },
        };
        proof {
            lemma_lookup_in_range(account@.disputed, t.tid);
        }
        let amount = match disputed.amount {
            Some(a) => a,
            None => return Err(TransactionError::MalformedInputData),
        };
        if !rebalance(account, amount, 1, -1, 0) {
            return Err(TransactionError::AmountOutOfRange { cid: account.id });
        }
        proof {
            lemma_wf_balanced(account@);
            lemma_insert_in_range(account@.resolved, disputed);
            lemma_remove_in_range(account@.disputed, t.tid);
        }
        if let Err(e) = Self::ensure_account_balance_invariant(account) {
            return Err(e);
        }
        account.resolved_transactions.insert(disputed);
        let _ = account.disputed_transactions.remove(t.tid);
        Ok(())
    }

    /// Handles the chargeback of a resolved transaction, which locks the
    /// account.
    pub fn chargeback(account: &mut Account, t: &Transaction) -> (r: Result<(), TransactionError>)
        requires
            old(account)@.wf(),
            old(account)@.id == t.cid,
        ensures
            final(account)@.wf(),
            final(account)@.id == t.cid,
            match chargeback_spec(old(account)@, *t) {
                Ok(b) => r == Ok::<(), TransactionError>(()) && final(account)@ == b,
                Err(e) => r == Err::<(), TransactionError>(e) && final(account)@ == old(account)@,
            },
    {
        let disputed = match account.resolved_transactions.get(t.tid) {
            Some(d) => d,
            None => {
                return Err(
                    TransactionError::NoSuchResolvedTransactionForClient {
                        tid: t.tid,
                        cid: account.id,
                    },
                )
            },
        };
        proof {
            lemma_lookup_in_range(account@.resolved, t.tid);
        }
        let amount = match disputed.amount {
            Some(a) => a,
            None => return Err(TransactionError::MalformedInputData),
        };
        if !rebalance(account, amount, 0, -1, -1) {
            return Err(TransactionError::AmountOutOfRange { cid: account.id });
        }
        proof {
            lemma_wf_balanced(account@);
            lemma_insert_in_range(account@.charged_back, disputed);
            lemma_remove_in_range(account@.resolved, t.tid);
        }
        if let Err(e) = Self::ensure_account_balance_invariant(account) {
            return Err(e);
        }
        account.charged_back_transactions.insert(disputed);
        let _ = account.resolved_transactions.remove(t.tid);
        account.freeze();
        Ok(())
    }

    /// Fails with `AccountIsLocked` on a locked account.
    fn ensure_account_is_not_locked(account: &Account) -> (r: Result<(), TransactionError>)
        ensures
            account.is_locked ==> r == Err::<(), TransactionError>(
                TransactionError::AccountIsLocked { cid: account.id },
            ),
            !account.is_locked ==> r is Ok,
    {
        if account.is_locked {
            Err(TransactionError::AccountIsLocked { cid: account.id })
        } else {
            Ok(())
        }
    }

    /// Checks that `available + held == total`.
    fn ensure_account_balance_invariant(account: &Account) -> (r: Result<(), TransactionError>)
        requires
            account.available.wf(),
            account.held.wf(),
            account.total.wf(),
        ensures
            account@.balanced() ==> r is Ok,
            !account@.balanced() ==> r == Err::<(), TransactionError>(
                TransactionError::AccountBalanceInvariantViolated { cid: account.id },
            ),
    {
        proof {
            if account@.balanced() {
                assert(account.total.wf() && account.total.value() == account.available.value()
                    + account.held.value());
            }
        }
        match account.available.checked_add(account.held) {
            Some(sum) => {
                if sum.compare(account.total) == 0 {
                    return Ok(());
                }
            },
            None => {},
        }
        Err(TransactionError::AccountBalanceInvariantViolated { cid: account.id })
    }

    /// Fails with `AccountHasInsufficientFundsAvailable` unless
    /// `available >= amount`.
    fn ensure_account_has_sufficient_funds_available(account: &Account, amount: Currency) -> (r:
        Result<(), TransactionError>)
        requires
            account.available.wf(),
            amount.wf(),
        ensures
            account.available.value() >= amount.value() ==> r is Ok,
            account.available.value() < amount.value() ==> r == Err::<(), TransactionError>(
                TransactionError::AccountHasInsufficientFundsAvailable { cid: account.id },
            ),
    {
        if account.available.compare(amount) >= 0 {
            Ok(())
        } else {
            Err(TransactionError::AccountHasInsufficientFundsAvailable { cid: account.id })
        }
    }
}

} // verus!
