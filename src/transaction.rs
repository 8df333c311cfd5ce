//! Transactions against the store, and their sequential composition.
use vstd::prelude::*;

use crate::operation::{apply_result, KindView};
use crate::storage::{single_post, transfer_post, Accounts, BalanceManagerError, Name, Storage};

verus! {

/// Why a transaction failed.
#[derive(Debug, Clone, Copy, PartialEq, Eq, Structural)]
pub enum TxError {
    /// The account to be debited holds less than the amount.
    InsufficientFunds,
    /// An account is missing, or the store refused the operation otherwise.
    InvalidAccount,
}

/// An action against the store.
pub trait Transaction {
    /// Whether applying this transaction to the accounts `before` may leave
    /// the accounts `after` and return `r`.
    spec fn applies(&self, before: Accounts, after: Accounts, r: Result<(), TxError>) -> bool;

    fn apply(&self, storage: &mut Storage) -> (r: Result<(), TxError>)
        requires
            old(storage).wf(),
        ensures
            final(storage).wf(),
            self.applies(old(storage)@, final(storage)@, r),
    ;
}

/// Deposits `amount` into `account`.
#[derive(Debug, Clone)]
pub struct Deposit {
    pub account: Name,
    pub amount: u64,
}

/// Withdraws `amount` from `account`.
#[derive(Debug, Clone)]
pub struct Withdraw {
    pub account: Name,
    pub amount: u64,
}

/// Moves `amount` from `from` to `to`.
#[derive(Debug, Clone)]
pub struct Transfer {
    pub from: Name,
    pub to: Name,
    pub amount: u64,
}

/// Sets the value of `account` to zero.
#[derive(Debug, Clone)]
pub struct Close {
    pub account: Name,
}

/// Applies `t1`, then `t2` only where `t1` succeeded. What `t1` did stays
/// done when `t2` fails.
#[derive(Debug, Clone)]
pub struct TxCombinator<T1: Transaction, T2: Transaction> {
    pub t1: T1,
    pub t2: T2,
}

impl Deposit {
    pub fn new(account: Name, amount: u64) -> (r: Deposit)
        ensures
            r.account@ == account@,
            r.amount == amount,
    {
        Deposit { account, amount }
    }
}

impl Withdraw {
    pub fn new(account: Name, amount: u64) -> (r: Withdraw)
        ensures
            r.account@ == account@,
            r.amount == amount,
    {
        Withdraw { account, amount }
    }
}

impl Transfer {
    pub fn new(from: Name, to: Name, amount: u64) -> (r: Transfer)
        ensures
            r.from@ == from@,
            r.to@ == to@,
            r.amount == amount,
    {
        Transfer { from, to, amount }
    }
}

impl Close {
    pub fn new(account: Name) -> (r: Close)
        ensures
            r.account@ == account@,
    {
        Close { account }
    }
}

impl<T1: Transaction, T2: Transaction> TxCombinator<T1, T2> {
    pub fn new(t1: T1, t2: T2) -> (r: TxCombinator<T1, T2>)
        ensures
            r.t1 == t1,
            r.t2 == t2,
    {
        TxCombinator { t1, t2 }
    }
}

impl Transaction for Deposit {
    /// The account records the deposit; any refusal is `InvalidAccount`.
    open spec fn applies(&self, before: Accounts, after: Accounts, r: Result<(), TxError>) -> bool {
        let k = KindView::Deposit(self.amount);
        &&& single_post(before, self.account@, k, after)
        &&& r == if before.contains_key(self.account@) && apply_result(
            before[self.account@].value,
            k,
        ) is Ok {
            Ok(())
        } else {
            Err(TxError::InvalidAccount)
        }
    }

    fn apply(&self, storage: &mut Storage) -> (r: Result<(), TxError>) {
        match storage.deposit(&self.account, self.amount) {
            Ok(()) => Ok(()),
            Err(_) => Err(TxError::InvalidAccount),
        }
    }
}

impl Transaction for Withdraw {
    /// The account records the withdrawal; a shortfall is `InsufficientFunds`.
    open spec fn applies(&self, before: Accounts, after: Accounts, r: Result<(), TxError>) -> bool {
        let k = KindView::Withdraw(self.amount);
        &&& single_post(before, self.account@, k, after)
        &&& r == if !before.contains_key(self.account@) {
            Err(TxError::InvalidAccount)
        } else if apply_result(before[self.account@].value, k) is Ok {
            Ok(())
        } else {
            Err(TxError::InsufficientFunds)
        }
    }

    fn apply(&self, storage: &mut Storage) -> (r: Result<(), TxError>) {
        match storage.withdraw(&self.account, self.amount) {
            Ok(()) => Ok(()),
            Err(BalanceManagerError::NotEnoughMoney { .. }) => Err(TxError::InsufficientFunds),
            Err(_) => Err(TxError::InvalidAccount),
        }
    }
}

impl Transaction for Transfer {
    /// A missing source is `InvalidAccount` and a short one
    /// `InsufficientFunds`, both before anything is recorded; otherwise the
    /// store's transfer runs, and its refusals are `InvalidAccount`.
    open spec fn applies(&self, before: Accounts, after: Accounts, r: Result<(), TxError>) -> bool {
        if !before.contains_key(self.from@) {
            after == before && r == Err::<(), TxError>(TxError::InvalidAccount)
        } else if before[self.from@].value < self.amount {
            after == before && r == Err::<(), TxError>(TxError::InsufficientFunds)
        } else {
            &&& transfer_post(before, self.from@, self.to@, self.amount, after)
            &&& r == if before.contains_key(self.to@) && self.from@ != self.to@
                && before[self.to@].value + self.amount <= i128::MAX {
                Ok(())
            } else {
                Err(TxError::InvalidAccount)
            }
        }
    }

    fn apply(&self, storage: &mut Storage) -> (r: Result<(), TxError>) {
        let available = match storage.get_balance(&self.from) {
            Some(b) => b.get_value(),
            None => {
                return Err(TxError::InvalidAccount);
            },
        };
        if available < self.amount as i128 {
            return Err(TxError::InsufficientFunds);
        }
        match storage.transfer(&self.from, &self.to, self.amount) {
            Ok(()) => Ok(()),
            Err(_) => Err(TxError::InvalidAccount),
        }
    }
}

impl Transaction for Close {
    /// The account records the close; a missing one is `InvalidAccount`.
    open spec fn applies(&self, before: Accounts, after: Accounts, r: Result<(), TxError>) -> bool {
        &&& single_post(before, self.account@, KindView::Close, after)
        &&& r == if before.contains_key(self.account@) {
            Ok(())
        } else {
            Err(TxError::InvalidAccount)
        }
    }

    fn apply(&self, storage: &mut Storage) -> (r: Result<(), TxError>) {
        match storage.close(&self.account) {
            Ok(()) => Ok(()),
            Err(_) => Err(TxError::InvalidAccount),
        }
    }
}

impl<T1: Transaction, T2: Transaction> Transaction for TxCombinator<T1, T2> {
    /// Either `t1` failed, and its error and its effect are the result, or it
    /// succeeded and `t2` ran from where it left the accounts.
    open spec fn applies(&self, before: Accounts, after: Accounts, r: Result<(), TxError>) -> bool {
        ||| r is Err && self.t1.applies(before, after, r)
        ||| exists|mid: Accounts, r1: Result<(), TxError>|
            r1 is Ok && #[trigger] self.t1.applies(before, mid, r1) && self.t2.applies(
                mid,
                after,
                r,
            )
    }

    fn apply(&self, storage: &mut Storage) -> (r: Result<(), TxError>) {
        let ghost before = storage@;
        let r1 = self.t1.apply(storage);
        if r1.is_err() {
            return r1;
        }
        let ghost mid = storage@;
        let r2 = self.t2.apply(storage);
        assert(r1 is Ok && self.t1.applies(before, mid, r1) && self.t2.applies(mid, storage@, r2));
        r2
    }
}


/// Chaining is associative: `(a then b) then c` and `a then (b then c)` allow
/// exactly the same outcomes, so a chain of any shape means its flat order.
pub proof fn lemma_chain_assoc<A: Transaction, B: Transaction, C: Transaction>(
    left: TxCombinator<TxCombinator<A, B>, C>,
    right: TxCombinator<A, TxCombinator<B, C>>,
    before: Accounts,
    after: Accounts,
    r: Result<(), TxError>,
)
    requires
        left.t1.t1 == right.t1,
        left.t1.t2 == right.t2.t1,
        left.t2 == right.t2.t2,
    ensures
        left.applies(before, after, r) <==> right.applies(before, after, r),
{
    let a = right.t1;
    let b = right.t2.t1;
    let c = right.t2.t2;
    if left.applies(before, after, r) {
        if r is Err && left.t1.applies(before, after, r) {
            if !(r is Err && a.applies(before, after, r)) {
                let (m, q1) = choose|m: Accounts, q1: Result<(), TxError>|
                    q1 is Ok && #[trigger] a.applies(before, m, q1) && b.applies(m, after, r);
                assert(right.t2.applies(m, after, r));
                assert(q1 is Ok && right.t1.applies(before, m, q1) && right.t2.applies(m, after, r));
            }
        } else {
            let (mid, r1) = choose|mid: Accounts, r1: Result<(), TxError>|
                r1 is Ok && #[trigger] left.t1.applies(before, mid, r1) && left.t2.applies(
                    mid,
                    after,
                    r,
                );
            let (m, q1) = choose|m: Accounts, q1: Result<(), TxError>|
                q1 is Ok && #[trigger] a.applies(before, m, q1) && b.applies(m, mid, r1);
            assert(r1 is Ok && b.applies(m, mid, r1) && c.applies(mid, after, r));
            assert(right.t2.applies(m, after, r));
            assert(q1 is Ok && right.t1.applies(before, m, q1) && right.t2.applies(m, after, r));
        }
    }
    if right.applies(before, after, r) {
        if r is Err && a.applies(before, after, r) {
            assert(left.t1.applies(before, after, r));
        } else {
            let (m, q1) = choose|m: Accounts, q1: Result<(), TxError>|
                q1 is Ok && #[trigger] right.t1.applies(before, m, q1) && right.t2.applies(
                    m,
                    after,
                    r,
                );
            if r is Err && b.applies(m, after, r) {
                assert(q1 is Ok && a.applies(before, m, q1) && b.applies(m, after, r));
                assert(left.t1.applies(before, after, r));
            } else {
                let (mid, r1) = choose|mid: Accounts, r1: Result<(), TxError>|
                    r1 is Ok && #[trigger] b.applies(m, mid, r1) && c.applies(mid, after, r);
                assert(q1 is Ok && a.applies(before, m, q1) && b.applies(m, mid, r1));
                assert(left.t1.applies(before, mid, r1));
                assert(r1 is Ok && left.t1.applies(before, mid, r1) && left.t2.applies(
                    mid,
                    after,
                    r,
                ));
            }
        }
    }
}

} // verus!
