//! The account of a client and what each kind of transaction does to it.

use std::collections::HashSet;
use vstd::prelude::*;
use crate::transaction::Transaction;

verus! {

broadcast use vstd::std_specs::hash::group_hash_axioms;

/// An account as the rules see it: exact balances in ten-thousandths of a
/// unit, the lock, and the transactions under dispute.
pub struct Account {
    pub id: u16,
    pub available: int,
    pub held: int,
    pub total: int,
    pub locked: bool,
    pub disputes: Set<u32>,
}

impl Account {
    /// A new account: nothing in it, not locked, nothing disputed.
    pub open spec fn new(id: u16) -> Account {
        Account { id, available: 0, held: 0, total: 0, locked: false, disputes: Set::empty() }
    }

    /// The total is what is available plus what is held.
    pub open spec fn balanced(self) -> bool {
        self.total == self.available + self.held
    }

    /// Every balance fits the fixed-point representation.
    pub open spec fn in_range(self) -> bool {
        &&& i64::MIN <= self.available <= i64::MAX
        &&& i64::MIN <= self.held <= i64::MAX
        &&& i64::MIN <= self.total <= i64::MAX
    }

    /// A deposit adds to the available funds and to the total.
    pub open spec fn deposit(self, amount: int) -> Account {
        Account { available: self.available + amount, total: self.total + amount, ..self }
    }

    /// A withdrawal takes from the available funds and from the total, if
    /// the available funds cover it; otherwise it changes nothing.
    pub open spec fn withdraw(self, amount: int) -> Account {
        if self.available >= amount {
            Account { available: self.available - amount, total: self.total - amount, ..self }
        } else {
            self
        }
    }

    /// A dispute of transaction `id` moves its amount from available to held.
    pub open spec fn dispute(self, id: u32, amount: int) -> Account {
        Account {
            available: self.available - amount,
            held: self.held + amount,
            disputes: self.disputes.insert(id),
            ..self
        }
    }

    /// Resolving the dispute of transaction `id` moves its amount back from
    /// held to available.
    pub open spec fn resolve(self, id: u32, amount: int) -> Account {
        Account {
            available: self.available + amount,
            held: self.held - amount,
            disputes: self.disputes.remove(id),
            ..self
        }
    }

    /// A chargeback removes the amount from held and from the total, and
    /// locks the account.
    pub open spec fn chargeback(self, amount: int) -> Account {
        Account { held: self.held - amount, total: self.total - amount, locked: true, ..self }
    }
}

/// Every kind of transaction keeps a balanced account balanced.
pub proof fn lemma_balance_is_kept(account: Account, id: u32, amount: int)
    requires
        account.balanced(),
    ensures
        account.deposit(amount).balanced(),
        account.withdraw(amount).balanced(),
        account.dispute(id, amount).balanced(),
        account.resolve(id, amount).balanced(),
        account.chargeback(amount).balanced(),
{
}

/// A chargeback locks an account, and no kind of transaction unlocks one.
pub proof fn lemma_lock_is_kept(account: Account, id: u32, amount: int)
    ensures
        account.chargeback(amount).locked,
        account.locked ==> {
            &&& account.deposit(amount).locked
            &&& account.withdraw(amount).locked
            &&& account.dispute(id, amount).locked
            &&& account.resolve(id, amount).locked
        },
{
}

/// A withdrawal of more than is available changes nothing.
pub proof fn lemma_uncovered_withdrawal_is_ignored(account: Account, amount: int)
    requires
        account.available < amount,
    ensures
        account.withdraw(amount) == account,
{
}

/// The account of one client. Balances are in ten-thousandths of a unit.
pub struct Client {
    /// The id of the client.
    pub id: u16,
    /// What the client can use now.
    pub available_funds: i64,
    /// What is kept back while disputes are open.
    pub held_funds: i64,
    /// What is available and what is held, together.
    pub total_funds: i64,
    /// Whether a chargeback has locked the account.
    pub locked: bool,
    /// The ids of the transactions under dispute.
    pub disputes: HashSet<u32>,
}

impl View for Client {
    type V = Account;

    open spec fn view(&self) -> Account {
        Account {
            id: self.id,
            available: self.available_funds as int,
            held: self.held_funds as int,
            total: self.total_funds as int,
            locked: self.locked,
            disputes: self.disputes@,
        }
    }
}

impl Client {
    /// A new account: nothing in it, not locked, nothing disputed.
    pub fn new(id: u16) -> (client: Client)
        ensures
            client@ == Account::new(id),
    {
        Client {
            id: id,
            total_funds: 0,
            available_funds: 0,
            held_funds: 0,
            locked: false,
            disputes: HashSet::<u32>::new(),
        }
    }

    /// Applies the deposit `tx`.
    pub fn deposit(&mut self, tx: &Transaction)
        requires
            tx.amount is Some,
            old(self)@.deposit(tx.amount.unwrap() as int).in_range(),
        ensures
            final(self)@ == old(self)@.deposit(tx.amount.unwrap() as int),
    {
        let deposit = tx.amount.unwrap();

        self.total_funds += deposit;
        self.available_funds += deposit;
    }

    /// Applies the withdrawal `tx`. One that the available funds do not cover
    /// is ignored.
    pub fn withdraw(&mut self, tx: &Transaction)
        requires
            tx.amount is Some,
            old(self)@.withdraw(tx.amount.unwrap() as int).in_range(),
        ensures
            final(self)@ == old(self)@.withdraw(tx.amount.unwrap() as int),
            old(self).available_funds < tx.amount.unwrap() ==> *final(self) == *old(self),
    {
        let withdrawal = tx.amount.unwrap();

        if self.available_funds >= withdrawal {
            self.total_funds -= withdrawal;
            self.available_funds -= withdrawal;
        }
    }

    /// Puts the transaction `tx` under dispute; without one, does nothing.
    pub fn dispute(&mut self, tx: Option<&Transaction>)
        requires
            tx matches Some(t) ==> t.amount is Some && old(self)@.dispute(
                t.id,
                t.amount.unwrap() as int,
            ).in_range(),
        ensures
            final(self)@ == match tx {
                Some(t) => old(self)@.dispute(t.id, t.amount.unwrap() as int),
                None => old(self)@,
            },
            tx is None ==> *final(self) == *old(self),
    {
        if let Some(tx) = tx {
            let dispute = tx.amount.unwrap();

            self.available_funds -= dispute;
            self.held_funds += dispute;
            self.disputes.insert(tx.id);
        }
    }

    /// Ends the dispute of the transaction `tx` in the client's favour;
    /// without one, does nothing.
    pub fn resolve(&mut self, tx: Option<&Transaction>)
        requires
            tx matches Some(t) ==> t.amount is Some && old(self)@.resolve(
                t.id,
                t.amount.unwrap() as int,
            ).in_range(),
        ensures
            final(self)@ == match tx {
                Some(t) => old(self)@.resolve(t.id, t.amount.unwrap() as int),
                None => old(self)@,
            },
            tx is None ==> *final(self) == *old(self),
    {
        if let Some(tx) = tx {
            let amount = tx.amount.unwrap();

            self.available_funds += amount;
            self.held_funds -= amount;
            self.disputes.remove(&tx.id);
        }
    }

    /// Charges the transaction `tx` back and locks the account; without one,
    /// does nothing.
    pub fn chargeback(&mut self, tx: Option<&Transaction>)
        requires
            tx matches Some(t) ==> t.amount is Some && old(self)@.chargeback(
                t.amount.unwrap() as int,
            ).in_range(),
        ensures
            final(self)@ == match tx {
                Some(t) => old(self)@.chargeback(t.amount.unwrap() as int),
                None => old(self)@,
            },
            tx is None ==> *final(self) == *old(self),
    {
        if let Some(tx) = tx {
            let amount = tx.amount.unwrap();

            self.total_funds -= amount;
            self.held_funds -= amount;
            self.locked = true;
        }
    }
}

} // verus!
