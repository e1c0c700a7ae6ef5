//! The ledger store and the rules by which one transaction changes it.

use std::collections::HashMap;
use std::str::FromStr;
use vstd::prelude::*;
use crate::client::{Account, Client};
use crate::error::ProcessError;
use crate::transaction::{Transaction, TransactionType};

verus! {

broadcast use vstd::std_specs::hash::group_hash_axioms;

/// The state of a ledger as the rules see it: the account of every client
/// met so far, and every deposit and withdrawal kept for later reference.
pub struct LedgerState {
    /// The accounts, by client id.
    pub accounts: Map<u16, Account>,
    /// The deposits and withdrawals, by transaction id.
    pub recorded: Map<u32, Transaction>,
}

impl LedgerState {
    /// No account and no recorded transaction.
    pub open spec fn empty() -> LedgerState {
        LedgerState { accounts: Map::empty(), recorded: Map::empty() }
    }

    /// Every account is filed under its own id, is balanced and fits the
    /// fixed-point representation; every recorded transaction is filed
    /// under its own id and has an amount.
    pub open spec fn wf(self) -> bool {
        &&& forall|id: u16| #[trigger]
            self.accounts.contains_key(id) ==> {
                &&& self.accounts[id].id == id
                &&& self.accounts[id].balanced()
                &&& self.accounts[id].in_range()
            }
        &&& forall|id: u32| #[trigger]
            self.recorded.contains_key(id) ==> {
                &&& self.recorded[id].id == id
                &&& self.recorded[id].amount is Some
            }
    }

    /// The account of a client: the one on file, or a new one.
    pub open spec fn account(self, client_id: u16) -> Account {
        if self.accounts.contains_key(client_id) {
            self.accounts[client_id]
        } else {
            Account::new(client_id)
        }
    }

    /// The amount of the recorded transaction `id`, if there is one.
    pub open spec fn amount_of(self, id: u32) -> Option<int> {
        if self.recorded.contains_key(id) {
            match self.recorded[id].amount {
                Some(amount) => Some(amount as int),
                None => None,
            }
        } else {
            None
        }
    }

    /// The account of the client of `tx` once `tx` has been applied as a
    /// transaction of the given kind. A deposit or withdrawal without an
    /// amount has no outcome. A dispute, resolve or chargeback takes its
    /// amount from the recorded transaction that it refers to, and leaves
    /// the account as it is when there is none.
    pub open spec fn outcome(self, kind: TransactionType, tx: Transaction) -> Option<Account> {
        let account = self.account(tx.client_id);
        match kind {
            TransactionType::Deposit => match tx.amount {
                Some(amount) => Some(account.deposit(amount as int)),
                None => None,
            },
            TransactionType::Withdrawal => match tx.amount {
                Some(amount) => Some(account.withdraw(amount as int)),
                None => None,
            },
            TransactionType::Dispute => match self.amount_of(tx.id) {
                Some(amount) => Some(account.dispute(tx.id, amount)),
                None => Some(account),
            },
            TransactionType::Resolve => match self.amount_of(tx.id) {
                Some(amount) => Some(account.resolve(tx.id, amount)),
                None => Some(account),
            },
            TransactionType::Chargeback => match self.amount_of(tx.id) {
                Some(amount) => Some(account.chargeback(amount)),
                None => Some(account),
            },
        }
    }

    /// Whether transactions of this kind are kept for later reference.
    pub open spec fn keeps(kind: TransactionType) -> bool {
        kind is Deposit || kind is Withdrawal
    }

    /// The state after `tx`, or the reason why `tx` is rejected.
    pub open spec fn step(self, tx: Transaction) -> Result<LedgerState, ProcessError> {
        match TransactionType::parse(tx.kind@) {
            None => Err(ProcessError::UnknownTransactionKind),
            Some(kind) => match self.outcome(kind, tx) {
                None => Err(ProcessError::MalformedTransaction),
                Some(account) => if account.in_range() {
                    Ok(
                        LedgerState {
                            accounts: self.accounts.insert(tx.client_id, account),
                            recorded: if Self::keeps(kind) {
                                self.recorded.insert(tx.id, tx)
                            } else {
                                self.recorded
                            },
                        },
                    )
                } else {
                    Err(ProcessError::BalanceOutOfRange)
                },
            },
        }
    }
}

/// A transaction that is applied to a well-formed state leaves a well-formed
/// state: in particular every account stays balanced, its total being what
/// is available plus what is held.
pub proof fn lemma_step_keeps_wf(state: LedgerState, tx: Transaction, next: LedgerState)
    requires
        state.wf(),
        state.step(tx) == Ok::<LedgerState, ProcessError>(next),
    ensures
        next.wf(),
{
}

/// Nothing is forgotten: an account that is on file stays on file, a
/// transaction that is recorded stays recorded, and the client of an
/// accepted transaction has an account afterwards.
pub proof fn lemma_step_forgets_nothing(state: LedgerState, tx: Transaction, next: LedgerState)
    requires
        state.step(tx) == Ok::<LedgerState, ProcessError>(next),
    ensures
        state.accounts.dom().subset_of(next.accounts.dom()),
        state.recorded.dom().subset_of(next.recorded.dom()),
        next.accounts.contains_key(tx.client_id),
{
}

/// A transaction touches the account of its own client only: every other
/// account is after it what it was before.
pub proof fn lemma_step_leaves_other_accounts(
    state: LedgerState,
    tx: Transaction,
    next: LedgerState,
    other: u16,
)
    requires
        state.step(tx) == Ok::<LedgerState, ProcessError>(next),
        other != tx.client_id,
    ensures
        next.accounts.contains_key(other) == state.accounts.contains_key(other),
        next.account(other) == state.account(other),
{
}

/// A withdrawal of more than the client has available is accepted and
/// recorded, and leaves the account of the client exactly as it was.
pub proof fn lemma_uncovered_withdrawal_changes_no_balance(state: LedgerState, tx: Transaction)
    requires
        state.wf(),
        TransactionType::parse(tx.kind@) == Some(TransactionType::Withdrawal),
        tx.amount is Some,
        state.account(tx.client_id).available < tx.amount.unwrap(),
    ensures
        state.step(tx) is Ok,
        state.step(tx).unwrap().account(tx.client_id) == state.account(tx.client_id),
        state.step(tx).unwrap().recorded == state.recorded.insert(tx.id, tx),
{
}

/// A dispute, resolve or chargeback that refers to a transaction that was
/// never recorded is accepted, and changes neither the account of the
/// client nor what is recorded.
pub proof fn lemma_unknown_reference_changes_nothing(state: LedgerState, tx: Transaction)
    requires
        state.wf(),
        TransactionType::parse(tx.kind@) is Some,
        !LedgerState::keeps(TransactionType::parse(tx.kind@).unwrap()),
        !state.recorded.contains_key(tx.id),
    ensures
        state.step(tx) is Ok,
        state.step(tx).unwrap().account(tx.client_id) == state.account(tx.client_id),
        state.step(tx).unwrap().recorded == state.recorded,
{
}

/// A chargeback that refers to a recorded transaction locks the account of
/// its client.
pub proof fn lemma_chargeback_locks(state: LedgerState, tx: Transaction, next: LedgerState)
    requires
        TransactionType::parse(tx.kind@) == Some(TransactionType::Chargeback),
        state.amount_of(tx.id) is Some,
        state.step(tx) == Ok::<LedgerState, ProcessError>(next),
    ensures
        next.account(tx.client_id).locked,
{
}

/// No transaction unlocks an account: one that is locked before a
/// transaction is locked after it.
pub proof fn lemma_lock_is_permanent(
    state: LedgerState,
    tx: Transaction,
    next: LedgerState,
    client_id: u16,
)
    requires
        state.step(tx) == Ok::<LedgerState, ProcessError>(next),
        state.account(client_id).locked,
    ensures
        next.account(client_id).locked,
{
}

/// A dispute is not idempotent. Disputing the same recorded transaction a
/// second time moves its amount from available to held a second time.
pub proof fn lemma_second_dispute_holds_again(
    state: LedgerState,
    tx: Transaction,
    once: LedgerState,
    twice: LedgerState,
)
    requires
        TransactionType::parse(tx.kind@) == Some(TransactionType::Dispute),
        state.amount_of(tx.id) is Some,
        state.step(tx) == Ok::<LedgerState, ProcessError>(once),
        once.step(tx) == Ok::<LedgerState, ProcessError>(twice),
    ensures
        twice.account(tx.client_id).available == state.account(tx.client_id).available - 2
            * state.amount_of(tx.id).unwrap(),
        twice.account(tx.client_id).held == state.account(tx.client_id).held + 2
            * state.amount_of(tx.id).unwrap(),
        twice.account(tx.client_id).total == state.account(tx.client_id).total,
{
}

/// A resolve is not idempotent, and does not ask whether the transaction is
/// under dispute. Resolving the same recorded transaction a second time
/// moves its amount from held to available a second time.
pub proof fn lemma_second_resolve_releases_again(
    state: LedgerState,
    tx: Transaction,
    once: LedgerState,
    twice: LedgerState,
)
    requires
        TransactionType::parse(tx.kind@) == Some(TransactionType::Resolve),
        state.amount_of(tx.id) is Some,
        state.step(tx) == Ok::<LedgerState, ProcessError>(once),
        once.step(tx) == Ok::<LedgerState, ProcessError>(twice),
    ensures
        twice.account(tx.client_id).available == state.account(tx.client_id).available + 2
            * state.amount_of(tx.id).unwrap(),
        twice.account(tx.client_id).held == state.account(tx.client_id).held - 2
            * state.amount_of(tx.id).unwrap(),
        twice.account(tx.client_id).total == state.account(tx.client_id).total,
{
}

/// A dispute after a resolve of the same recorded transaction takes the
/// amount from the available funds again: after dispute, resolve and
/// dispute the account is as after the first dispute.
pub proof fn lemma_dispute_after_resolve_holds_again(
    state: LedgerState,
    dispute: Transaction,
    resolve: Transaction,
    disputed: LedgerState,
    resolved: LedgerState,
    again: LedgerState,
)
    requires
        TransactionType::parse(dispute.kind@) == Some(TransactionType::Dispute),
        TransactionType::parse(resolve.kind@) == Some(TransactionType::Resolve),
        dispute.id == resolve.id,
        dispute.client_id == resolve.client_id,
        state.amount_of(dispute.id) is Some,
        state.step(dispute) == Ok::<LedgerState, ProcessError>(disputed),
        disputed.step(resolve) == Ok::<LedgerState, ProcessError>(resolved),
        resolved.step(dispute) == Ok::<LedgerState, ProcessError>(again),
    ensures
        resolved.account(dispute.client_id).available == state.account(
            dispute.client_id,
        ).available,
        resolved.account(dispute.client_id).held == state.account(dispute.client_id).held,
        again.account(dispute.client_id).available == state.account(dispute.client_id).available
            - state.amount_of(dispute.id).unwrap(),
        again.account(dispute.client_id).held == state.account(dispute.client_id).held
            + state.amount_of(dispute.id).unwrap(),
        again.account(dispute.client_id) == disputed.account(dispute.client_id),
{
}

/// The ledger store: the accounts by client id, and the deposits and
/// withdrawals by transaction id.
pub struct Ledger {
    clients: HashMap<u16, Client>,
    transactions: HashMap<u32, Transaction>,
}

impl View for Ledger {
    type V = LedgerState;

    closed spec fn view(&self) -> LedgerState {
        LedgerState {
            accounts: Map::new(
                |id: u16| self.clients@.contains_key(id),
                |id: u16| self.clients@[id]@,
            ),
            recorded: self.transactions@,
        }
    }
}

/// Whether `a + b` fits.
fn sum_fits(a: i64, b: i64) -> (fits: bool)
    ensures
        fits == (i64::MIN <= a + b <= i64::MAX),
{
    a.checked_add(b).is_some()
}

/// Whether `a - b` fits.
fn difference_fits(a: i64, b: i64) -> (fits: bool)
    ensures
        fits == (i64::MIN <= a - b <= i64::MAX),
{
    a.checked_sub(b).is_some()
}

/// The account of a client, made new if the client has none yet.
fn get_or_create(clients: &mut HashMap<u16, Client>, client_id: u16) -> (client: &mut Client)
    ensures
        client@ == (if old(clients)@.contains_key(client_id) {
            old(clients)@[client_id]@
        } else {
            Account::new(client_id)
        }),
        final(clients)@ == old(clients)@.insert(client_id, *final(client)),
{
    clients.entry(client_id).or_insert(Client::new(client_id))
}

/// Keeps `tx` for later reference under its id, in place of any
/// transaction kept under that id before.
fn record(transactions: &mut HashMap<u32, Transaction>, tx: Transaction)
    ensures
        final(transactions)@ == old(transactions)@.insert(tx.id, tx),
{
    transactions.insert(tx.id, tx);
}

impl Ledger {
    /// An empty ledger.
    pub fn new() -> (ledger: Ledger)
        ensures
            ledger@ == LedgerState::empty(),
            ledger@.wf(),
    {
        let ledger = Ledger { clients: HashMap::new(), transactions: HashMap::new() };
        assert(ledger@.accounts =~= Map::empty());
        ledger
    }

    /// The recorded deposit or withdrawal with this id.
    pub fn lookup(&self, id: u32) -> (found: Option<&Transaction>)
        ensures
            match found {
                Some(tx) => self@.recorded.contains_key(id) && *tx == self@.recorded[id],
                None => !self@.recorded.contains_key(id),
            },
    {
        self.transactions.get(&id)
    }

    /// The account of a client, if the ledger has met the client.
    pub fn account(&self, client_id: u16) -> (found: Option<&Client>)
        ensures
            match found {
                Some(client) => self@.accounts.contains_key(client_id) && client@
                    == self@.accounts[client_id],
                None => !self@.accounts.contains_key(client_id),
            },
    {
        self.clients.get(&client_id)
    }

    /// Every account, by client id.
    pub fn accounts(&self) -> (clients: &HashMap<u16, Client>)
        ensures
            clients@.dom() == self@.accounts.dom(),
            forall|id: u16| #[trigger]
                clients@.contains_key(id) ==> clients@[id]@ == self@.accounts[id],
    {
        &self.clients
    }

    /// Applies one transaction: finds the account of its client, or opens
    /// one, and changes it as the kind of the transaction asks. A deposit
    /// or withdrawal is then kept for later reference, whether or not the
    /// withdrawal was covered.
    ///
    /// A transaction is rejected for a kind that is not known, else for an
    /// amount that a deposit or withdrawal lacks, else for a balance that
    /// would leave the range. A rejected transaction leaves the ledger as
    /// it was.
    pub fn process_record(&mut self, tx: Transaction) -> (result: Result<(), ProcessError>)
        requires
            old(self)@.wf(),
        ensures
            match result {
                Ok(()) => old(self)@.step(tx) == Ok::<LedgerState, ProcessError>(final(self)@),
                Err(e) => {
                    &&& old(self)@.step(tx) == Err::<LedgerState, ProcessError>(e)
                    &&& final(self)@ == old(self)@
                },
            },
            final(self)@.wf(),
    {
        let ghost given = tx;
        let kind = match TransactionType::from_str(tx.kind.as_str()) {
            Ok(kind) => kind,
            Err(e) => {
                return Err(e);
            },
        };
        let (available, held, total) = match self.clients.get(&tx.client_id) {
            Some(client) => (client.available_funds, client.held_funds, client.total_funds),
            None => (0, 0, 0),
        };
        match kind {
            TransactionType::Deposit => {
                let amount = match tx.amount {
                    Some(amount) => amount,
                    None => {
                        return Err(ProcessError::MalformedTransaction);
                    },
                };
                if !sum_fits(available, amount) || !sum_fits(total, amount) {
                    return Err(ProcessError::BalanceOutOfRange);
                }
                let client = get_or_create(&mut self.clients, tx.client_id);
                client.deposit(&tx);
                record(&mut self.transactions, tx);
            },
            TransactionType::Withdrawal => {
                let amount = match tx.amount {
                    Some(amount) => amount,
                    None => {
                        return Err(ProcessError::MalformedTransaction);
                    },
                };
                if available >= amount && (!difference_fits(available, amount) || !difference_fits(
                    total,
                    amount,
                )) {
                    return Err(ProcessError::BalanceOutOfRange);
                }
                let client = get_or_create(&mut self.clients, tx.client_id);
                client.withdraw(&tx);
                record(&mut self.transactions, tx);
            },
            TransactionType::Dispute => {
                let referred = self.transactions.get(&tx.id);
                if let Some(referred) = referred {
                    let amount = referred.amount.unwrap();
                    if !difference_fits(available, amount) || !sum_fits(held, amount) {
                        return Err(ProcessError::BalanceOutOfRange);
                    }
                }
                let client = get_or_create(&mut self.clients, tx.client_id);
                client.dispute(referred);
            },
            TransactionType::Resolve => {
                let referred = self.transactions.get(&tx.id);
                if let Some(referred) = referred {
                    let amount = referred.amount.unwrap();
                    if !sum_fits(available, amount) || !difference_fits(held, amount) {
                        return Err(ProcessError::BalanceOutOfRange);
                    }
                }
                let client = get_or_create(&mut self.clients, tx.client_id);
                client.resolve(referred);
            },
            TransactionType::Chargeback => {
                let referred = self.transactions.get(&tx.id);
                if let Some(referred) = referred {
                    let amount = referred.amount.unwrap();
                    if !difference_fits(total, amount) || !difference_fits(held, amount) {
                        return Err(ProcessError::BalanceOutOfRange);
                    }
                }
                let client = get_or_create(&mut self.clients, tx.client_id);
                client.chargeback(referred);
            },
        }
        proof {
            let next = old(self)@.outcome(kind, given).unwrap();
            assert(self@.accounts =~= old(self)@.accounts.insert(given.client_id, next));
        }
        Ok(())
    }
}

} // verus!
