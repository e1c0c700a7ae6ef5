//! Runs of transactions over a ledger.

use vstd::prelude::*;
use crate::error::ProcessError;
use crate::ledger::{
    lemma_lock_is_permanent, lemma_step_forgets_nothing, lemma_step_keeps_wf, Ledger, LedgerState,
};
use crate::transaction::{Transaction, TransactionType};

verus! {

/// The state after the transactions of `txs` have been applied in order,
/// starting from `state`, or the error of the first one that is rejected.
pub open spec fn run(state: LedgerState, txs: Seq<Transaction>) -> Result<
    LedgerState,
    ProcessError,
>
    decreases txs.len(),
{
    if txs.len() == 0 {
        Ok(state)
    } else {
        match state.step(txs[0]) {
            Ok(next) => run(next, txs.drop_first()),
            Err(e) => Err(e),
        }
    }
}

/// Whether `tx` is a deposit or a withdrawal.
pub open spec fn moves_funds(tx: Transaction) -> bool {
    TransactionType::parse(tx.kind@) == Some(TransactionType::Deposit) || TransactionType::parse(
        tx.kind@,
    ) == Some(TransactionType::Withdrawal)
}

/// Whether no account holds funds: in every account nothing is held, and
/// the total is what is available.
pub open spec fn nothing_held(state: LedgerState) -> bool {
    forall|id: u16| #[trigger]
        state.accounts.contains_key(id) ==> {
            &&& state.accounts[id].held == 0
            &&& state.accounts[id].total == state.accounts[id].available
        }
}

/// A run that starts from a well-formed state ends in a well-formed state.
pub proof fn lemma_run_keeps_wf(state: LedgerState, txs: Seq<Transaction>, end: LedgerState)
    requires
        state.wf(),
        run(state, txs) == Ok::<LedgerState, ProcessError>(end),
    ensures
        end.wf(),
    decreases txs.len(),
{
    if txs.len() > 0 {
        let next = state.step(txs[0]).unwrap();
        lemma_step_keeps_wf(state, txs[0], next);
        lemma_run_keeps_wf(next, txs.drop_first(), end);
    }
}

/// Through a run no account is removed and no recorded transaction is
/// deleted.
pub proof fn lemma_run_forgets_nothing(state: LedgerState, txs: Seq<Transaction>, end: LedgerState)
    requires
        run(state, txs) == Ok::<LedgerState, ProcessError>(end),
    ensures
        state.accounts.dom().subset_of(end.accounts.dom()),
        state.recorded.dom().subset_of(end.recorded.dom()),
    decreases txs.len(),
{
    if txs.len() > 0 {
        let next = state.step(txs[0]).unwrap();
        lemma_step_forgets_nothing(state, txs[0], next);
        lemma_run_forgets_nothing(next, txs.drop_first(), end);
    }
}

/// Deposits and withdrawals hold no funds: a run of them that starts
/// where nothing is held ends where nothing is held.
pub proof fn lemma_moving_funds_holds_nothing(
    state: LedgerState,
    txs: Seq<Transaction>,
    end: LedgerState,
)
    requires
        nothing_held(state),
        forall|i: int| 0 <= i < txs.len() ==> moves_funds(#[trigger] txs[i]),
        run(state, txs) == Ok::<LedgerState, ProcessError>(end),
    ensures
        nothing_held(end),
    decreases txs.len(),
{
    if txs.len() > 0 {
        let next = state.step(txs[0]).unwrap();
        lemma_moving_funds_holds_nothing(next, txs.drop_first(), end);
    }
}

/// After any sequence of deposits and withdrawals applied to an empty
/// ledger, every account has nothing held and a total equal to what is
/// available.
pub proof fn lemma_without_disputes_nothing_is_held(txs: Seq<Transaction>, end: LedgerState)
    requires
        forall|i: int| 0 <= i < txs.len() ==> moves_funds(#[trigger] txs[i]),
        run(LedgerState::empty(), txs) == Ok::<LedgerState, ProcessError>(end),
    ensures
        forall|id: u16| #[trigger]
            end.accounts.contains_key(id) ==> {
                &&& end.accounts[id].held == 0
                &&& end.accounts[id].total == end.accounts[id].available
            },
{
    lemma_moving_funds_holds_nothing(LedgerState::empty(), txs, end);
}

/// A locked account stays locked through any run.
pub proof fn lemma_lock_survives_run(
    state: LedgerState,
    txs: Seq<Transaction>,
    end: LedgerState,
    client_id: u16,
)
    requires
        state.account(client_id).locked,
        run(state, txs) == Ok::<LedgerState, ProcessError>(end),
    ensures
        end.account(client_id).locked,
    decreases txs.len(),
{
    if txs.len() > 0 {
        let next = state.step(txs[0]).unwrap();
        lemma_lock_is_permanent(state, txs[0], next, client_id);
        lemma_lock_survives_run(next, txs.drop_first(), end, client_id);
    }
}

/// Applies the records in order to an empty ledger and returns the ledger
/// they leave, or the error of the first record that is rejected.
pub fn process_transactions(records: Vec<Transaction>) -> (result: Result<Ledger, ProcessError>)
    ensures
        match result {
            Ok(ledger) => {
                &&& run(LedgerState::empty(), records@) == Ok::<LedgerState, ProcessError>(ledger@)
                &&& ledger@.wf()
            },
            Err(e) => run(LedgerState::empty(), records@) == Err::<LedgerState, ProcessError>(e),
        },
{
    let mut ledger = Ledger::new();
    let ghost all = records@;
    assert(all.skip(0) =~= all);
    for tx in it: records
        invariant
            it.seq() == all,
            ledger@.wf(),
            run(LedgerState::empty(), all) == run(ledger@, all.skip(it.index() as int)),
    {
        let ghost rest = all.skip(it.index() as int);
        assert(rest.drop_first() =~= all.skip(it.index() + 1));
        match ledger.process_record(tx) {
            Ok(()) => {},
            Err(e) => {
                return Err(e);
            },
        }
    }
    Ok(ledger)
}

} // verus!
