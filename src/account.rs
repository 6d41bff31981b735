//! A client account: its balances, its lock, and the ledgers that track each
//! transaction through the dispute lifecycle.
use crate::currency::{digit_char, nat_text, renderable, rendered, Currency};
use crate::error::TransactionError;
use crate::ledger::{
    has_id, insert_entry, insert_ignored, lookup, remove_entry, unique_ids, unique_ignored, IgnoredLedger,
    TransactionLedger,
};
use crate::types::{ClientId, IgnoredTransaction, Transaction, TransactionId, TransactionType};
use vstd::prelude::*;

verus! {

/// What an account holds, as mathematical values.
pub ghost struct AccountView {
    pub id: ClientId,
    pub available: Currency,
    pub held: Currency,
    pub total: Currency,
    pub is_locked: bool,
    pub processed: Seq<Transaction>,
    pub disputed: Seq<Transaction>,
    pub resolved: Seq<Transaction>,
    pub charged_back: Seq<Transaction>,
    pub ignored: Seq<IgnoredTransaction>,
}

/// Every entry carries an amount in range.
pub open spec fn amounts_in_range(s: Seq<Transaction>) -> bool {
    forall|i: int| 0 <= i < s.len() ==> ((#[trigger] s[i]).amount matches Some(x) && x.wf())
}

/// In how many of the four lifecycle ledgers transaction id `tid` sits.
pub open spec fn lifecycle_count(a: AccountView, tid: TransactionId) -> int {
    (if has_id(a.processed, tid) {
        1int
    } else {
        0
    }) + (if has_id(a.disputed, tid) {
        1int
    } else {
        0
    }) + (if has_id(a.resolved, tid) {
        1int
    } else {
        0
    }) + (if has_id(a.charged_back, tid) {
        1int
    } else {
        0
    })
}

/// No transaction id sits in two of the four lifecycle ledgers.
pub open spec fn ledgers_exclusive(a: AccountView) -> bool {
    forall|tid: TransactionId| #[trigger] lifecycle_count(a, tid) <= 1
}

impl AccountView {
    /// `available + held == total`.
    pub open spec fn balanced(self) -> bool {
        self.available.value() + self.held.value() == self.total.value()
    }

    /// The account's own invariant: amounts in range, the three balances
    /// adding up, ledgers keyed uniquely.
    pub open spec fn wf(self) -> bool {
        &&& self.available.wf()
        &&& self.held.wf()
        &&& self.total.wf()
        &&& self.balanced()
        &&& unique_ids(self.processed)
        &&& unique_ids(self.disputed)
        &&& unique_ids(self.resolved)
        &&& unique_ids(self.charged_back)
        &&& unique_ignored(self.ignored)
        &&& amounts_in_range(self.processed)
        &&& amounts_in_range(self.disputed)
        &&& amounts_in_range(self.resolved)
        &&& amounts_in_range(self.charged_back)
    }
}

/// A new account: zero balances, unlocked, empty ledgers.
pub open spec fn fresh_account(id: ClientId) -> AccountView {
    AccountView {
        id,
        available: Currency { mantissa: 0, scale: 0 },
        held: Currency { mantissa: 0, scale: 0 },
        total: Currency { mantissa: 0, scale: 0 },
        is_locked: false,
        processed: Seq::empty(),
        disputed: Seq::empty(),
        resolved: Seq::empty(),
        charged_back: Seq::empty(),
        ignored: Seq::empty(),
    }
}

/// A new account is well formed.
pub proof fn lemma_fresh_wf(id: ClientId)
    ensures
        fresh_account(id).wf(),
{
    let z = Currency { mantissa: 0, scale: 0 };
    assert(z.value() == 0);
}

/// `c` moved by `x`: up (`dir > 0`), down (`dir < 0`), or left as it is
/// (`dir == 0`).
pub open spec fn shifted(c: Currency, x: Currency, dir: int) -> Option<Currency> {
    if dir > 0 {
        c.add_spec(x)
    } else if dir < 0 {
        c.sub_spec(x)
    } else {
        Some(c)
    }
}

/// The account with each balance moved by `x` in its direction, if all fit.
pub open spec fn rebalanced(a: AccountView, x: Currency, da: int, dh: int, dt: int) -> Option<
    AccountView,
> {
    match (shifted(a.available, x, da), shifted(a.held, x, dh), shifted(a.total, x, dt)) {
        (Some(av), Some(h), Some(t)) => Some(AccountView { available: av, held: h, total: t, ..a }),
        _ => None,
    }
}

/// A deposit: `available` and `total` grow by the amount.
pub open spec fn deposit_spec(a: AccountView, t: Transaction) -> Result<AccountView, TransactionError> {
    match t.amount {
        None => Err(TransactionError::MalformedInputData),
        Some(x) => if !x.wf() {
            Err(TransactionError::AmountOutOfRange { cid: t.cid })
        } else {
            match rebalanced(a, x, 1, 0, 1) {
                None => Err(TransactionError::AmountOutOfRange { cid: t.cid }),
                Some(b) => Ok(AccountView { processed: insert_entry(a.processed, t), ..b }),
            }
        },
    }
}

/// A withdrawal: `available` and `total` shrink by the amount, which must not
/// exceed `available`.
pub open spec fn withdraw_spec(a: AccountView, t: Transaction) -> Result<AccountView, TransactionError> {
    match t.amount {
        None => Err(TransactionError::MalformedInputData),
        Some(x) => if !x.wf() {
            Err(TransactionError::AmountOutOfRange { cid: t.cid })
        } else if a.available.value() < x.value() {
            Err(TransactionError::AccountHasInsufficientFundsAvailable { cid: t.cid })
        } else {
            match rebalanced(a, x, -1, 0, -1) {
                None => Err(TransactionError::AmountOutOfRange { cid: t.cid }),
                Some(b) => Ok(AccountView { processed: insert_entry(a.processed, t), ..b }),
            }
        },
    }
}

/// A dispute of processed transaction `t.tid`: its amount moves from
/// `available` to `held`, and it moves from `processed` to `disputed`.
pub open spec fn dispute_spec(a: AccountView, t: Transaction) -> Result<AccountView, TransactionError> {
    match lookup(a.processed, t.tid) {
        None => Err(TransactionError::NoSuchProcessedTransactionForClient { tid: t.tid, cid: t.cid }),
        Some(d) => match d.amount {
            None => Err(TransactionError::MalformedInputData),
            Some(x) => match rebalanced(a, x, -1, 1, 0) {
                None => Err(TransactionError::AmountOutOfRange { cid: t.cid }),
                Some(b) => Ok(
                    AccountView {
                        processed: remove_entry(a.processed, t.tid),
                        disputed: insert_entry(a.disputed, d),
                        ..b
                    },
                ),
            },
        },
    }
}

/// A resolve of disputed transaction `t.tid`: its amount moves back from
/// `held` to `available`, and it moves from `disputed` to `resolved`.
pub open spec fn resolve_spec(a: AccountView, t: Transaction) -> Result<AccountView, TransactionError> {
    match lookup(a.disputed, t.tid) {
        None => Err(TransactionError::NoSuchDisputedTransactionForClient { tid: t.tid, cid: t.cid }),
        Some(d) => match d.amount {
            None => Err(TransactionError::MalformedInputData),
            Some(x) => match rebalanced(a, x, 1, -1, 0) {
                None => Err(TransactionError::AmountOutOfRange { cid: t.cid }),
                Some(b) => Ok(
                    AccountView {
                        disputed: remove_entry(a.disputed, t.tid),
                        resolved: insert_entry(a.resolved, d),
                        ..b
                    },
                ),
            },
        },
    }
}

/// A chargeback of resolved transaction `t.tid`: its amount leaves `held`
/// and `total`, it moves from `resolved` to `charged_back`, and the account
/// is locked.
pub open spec fn chargeback_spec(a: AccountView, t: Transaction) -> Result<
    AccountView,
    TransactionError,
> {
    match lookup(a.resolved, t.tid) {
        None => Err(TransactionError::NoSuchResolvedTransactionForClient { tid: t.tid, cid: t.cid }),
        Some(d) => match d.amount {
            None => Err(TransactionError::MalformedInputData),
            Some(x) => match rebalanced(a, x, 0, -1, -1) {
                None => Err(TransactionError::AmountOutOfRange { cid: t.cid }),
                Some(b) => Ok(
                    AccountView {
                        resolved: remove_entry(a.resolved, t.tid),
                        charged_back: insert_entry(a.charged_back, d),
                        is_locked: true,
                        ..b
                    },
                ),
            },
        },
    }
}

/// What transaction `t` does to an unlocked account.
pub open spec fn handle_spec(a: AccountView, t: Transaction) -> Result<AccountView, TransactionError> {
    match t.ttype {
        TransactionType::Deposit => deposit_spec(a, t),
        TransactionType::Withdrawal => withdraw_spec(a, t),
        TransactionType::Dispute => dispute_spec(a, t),
        TransactionType::Resolve => resolve_spec(a, t),
        TransactionType::Chargeback => chargeback_spec(a, t),
    }
}

/// The account with rejection `r` recorded.
pub open spec fn with_ignored(a: AccountView, r: IgnoredTransaction) -> AccountView {
    AccountView { ignored: insert_ignored(a.ignored, r), ..a }
}

/// A moved balance is in range and has moved by exactly `x`.
proof fn lemma_shifted(c: Currency, x: Currency, dir: int)
    requires
        c.wf(),
        shifted(c, x, dir) is Some,
    ensures
        shifted(c, x, dir)->Some_0.wf(),
        shifted(c, x, dir)->Some_0.value() == c.value() + (if dir > 0 {
            x.value()
        } else if dir < 0 {
            -x.value()
        } else {
            0
        }),
{
}

/// Moving the balances keeps them in range and adding up.
proof fn lemma_rebalanced_wf(a: AccountView, x: Currency, da: int, dh: int, dt: int)
    requires
        a.wf(),
        x.wf(),
        da + dh == dt,
        -1 <= da <= 1,
        -1 <= dh <= 1,
        -1 <= dt <= 1,
        rebalanced(a, x, da, dh, dt) is Some,
    ensures
        rebalanced(a, x, da, dh, dt)->Some_0.wf(),
        rebalanced(a, x, da, dh, dt)->Some_0 == (AccountView {
            available: rebalanced(a, x, da, dh, dt)->Some_0.available,
            held: rebalanced(a, x, da, dh, dt)->Some_0.held,
            total: rebalanced(a, x, da, dh, dt)->Some_0.total,
            ..a
        }),
{
    lemma_shifted(a.available, x, da);
    lemma_shifted(a.held, x, dh);
    lemma_shifted(a.total, x, dt);
}

/// An account of the ledger: balances, lock, and lifecycle ledgers.
pub struct Account {
    pub id: ClientId,
    pub available: Currency,
    pub held: Currency,
    pub total: Currency,
    pub is_locked: bool,
    /// Transactions that have been processed, and are not disputed.
    pub processed_transactions: TransactionLedger,
    /// Transactions that have been disputed.
    pub disputed_transactions: TransactionLedger,
    /// Transactions whose dispute has been resolved.
    pub resolved_transactions: TransactionLedger,
    /// Transactions that have been charged back.
    pub charged_back_transactions: TransactionLedger,
    /// Transactions that were rejected, with the reason.
    pub ignored_transactions: IgnoredLedger,
}

impl View for Account {
    type V = AccountView;

    open spec fn view(&self) -> AccountView {
        AccountView {
            id: self.id,
            available: self.available,
            held: self.held,
            total: self.total,
            is_locked: self.is_locked,
            processed: self.processed_transactions@,
            disputed: self.disputed_transactions@,
            resolved: self.resolved_transactions@,
            charged_back: self.charged_back_transactions@,
            ignored: self.ignored_transactions@,
        }
    }
}

impl Account {
    /// A new, empty account for client `id`.
    pub fn new(id: ClientId) -> (r: Account)
        ensures
            r@ == fresh_account(id),
            r@.wf(),
    {
        Account {
            id,
            available: Currency::zero(),
            held: Currency::zero(),
            total: Currency::zero(),
            is_locked: false,
            processed_transactions: TransactionLedger::new(),
            disputed_transactions: TransactionLedger::new(),
            resolved_transactions: TransactionLedger::new(),
            charged_back_transactions: TransactionLedger::new(),
            ignored_transactions: IgnoredLedger::new(),
        }
    }

    /// Locks the account for good.
    pub fn freeze(&mut self)
        ensures
            final(self)@ == (AccountView { is_locked: true, ..old(self)@ }),
    {
        self.is_locked = true;
    }

    /// Records a rejected transaction with its reason.
    pub fn ignore(&mut self, t: Transaction, reason: TransactionError)
        requires
            old(self)@.wf(),
        ensures
            final(self)@ == with_ignored(
                old(self)@,
                IgnoredTransaction { transaction: t, reason },
            ),
            final(self)@.wf(),
    {
        self.ignored_transactions.insert(IgnoredTransaction { transaction: t, reason });
    }
}

/// `true` or `false`.
pub open spec fn bool_text(b: bool) -> Seq<char> {
    if b {
        seq!['t', 'r', 'u', 'e']
    } else {
        seq!['f', 'a', 'l', 's', 'e']
    }
}

/// The line of output for an account: `client,available,held,total,locked`.
pub open spec fn row_text(a: AccountView) -> Seq<char> {
    nat_text(a.id.0 as nat) + seq![','] + rendered(a.available) + seq![','] + rendered(a.held)
        + seq![','] + rendered(a.total) + seq![','] + bool_text(a.is_locked)
}

/// The text of one decimal digit.
fn digit_str(d: u16) -> (r: &'static str)
    requires
        d < 10,
    ensures
        r@ == seq![digit_char(d as int)],
{
    proof {
        reveal_strlit("0");
        reveal_strlit("1");
        reveal_strlit("2");
        reveal_strlit("3");
        reveal_strlit("4");
        reveal_strlit("5");
        reveal_strlit("6");
        reveal_strlit("7");
        reveal_strlit("8");
        reveal_strlit("9");
    }
    let r = if d == 0 {
        "0"
    } else if d == 1 {
        "1"
    } else if d == 2 {
        "2"
    } else if d == 3 {
        "3"
    } else if d == 4 {
        "4"
    } else if d == 5 {
        "5"
    } else if d == 6 {
        "6"
    } else if d == 7 {
        "7"
    } else if d == 8 {
        "8"
    } else {
        "9"
    };
    assert(r@ =~= seq![digit_char(d as int)]);
    r
}

/// Appends the decimal digits of `n`, without leading zeros.
fn push_digits(r: &mut String, n: u16)
    ensures
        final(r)@ == old(r)@ + nat_text(n as nat),
    decreases n,
{
    if n >= 10 {
        push_digits(r, n / 10);
    }
    r.append(digit_str(n % 10));
    assert(final(r)@ =~= old(r)@ + nat_text(n as nat));
}

impl Account {
    /// Whether the three balances can be rendered.
    pub fn is_renderable(&self) -> (r: bool)
        requires
            self.available.wf(),
            self.held.wf(),
            self.total.wf(),
        ensures
            r == (renderable(self.available) && renderable(self.held) && renderable(self.total)),
    {
        self.available.is_renderable() && self.held.is_renderable() && self.total.is_renderable()
    }

    /// The account as a line of output: the client id, the three balances
    /// with four fractional digits, and the lock flag.
    pub fn csv_row(&self) -> (r: String)
        requires
            self.available.wf(),
            self.held.wf(),
            self.total.wf(),
            renderable(self.available),
            renderable(self.held),
            renderable(self.total),
        ensures
            r@ == row_text(self@),
    {
        proof {
            reveal_strlit(",");
            reveal_strlit("true");
            reveal_strlit("false");
        }
        let mut r = String::new();
        push_digits(&mut r, self.id.0);
        r.append(",");
        let t = self.available.to_string();
        r.append(t.as_str());
        r.append(",");
        let t = self.held.to_string();
        r.append(t.as_str());
        r.append(",");
        let t = self.total.to_string();
        r.append(t.as_str());
        r.append(",");
        if self.is_locked {
            r.append("true");
        } else {
            r.append("false");
        }
        assert(r@ =~= row_text(self@));
        r
    }
}

/// `c` moved by `x` as `shifted` says.
fn shift(c: Currency, x: Currency, dir: i8) -> (r: Option<Currency>)
    requires
        c.wf(),
        x.wf(),
    ensures
        r == shifted(c, x, dir as int),
        r matches Some(v) ==> v.wf(),
{
    if dir > 0 {
        c.checked_add(x)
    } else if dir < 0 {
        c.checked_sub(x)
    } else {
        Some(c)
    }
}

/// Moves the three balances of `account` by `x`, if all fit.
pub fn rebalance(account: &mut Account, x: Currency, da: i8, dh: i8, dt: i8) -> (r: bool)
    requires
        old(account)@.wf(),
        x.wf(),
        da + dh == dt,
        -1 <= da <= 1,
        -1 <= dh <= 1,
        -1 <= dt <= 1,
    ensures
        r == rebalanced(old(account)@, x, da as int, dh as int, dt as int) is Some,
        r ==> final(account)@ == rebalanced(old(account)@, x, da as int, dh as int, dt as int)->Some_0,
        !r ==> final(account)@ == old(account)@,
        final(account)@.wf(),
{
    let av = shift(account.available, x, da);
    let h = shift(account.held, x, dh);
    let t = shift(account.total, x, dt);
    match (av, h, t) {
        (Some(av), Some(h), Some(t)) => {
            proof {
                lemma_rebalanced_wf(account@, x, da as int, dh as int, dt as int);
            }
            account.available = av;
            account.held = h;
            account.total = t;
            true
        },
        _ => false,
    }
}

} // verus!
