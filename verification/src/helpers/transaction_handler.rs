use vstd::prelude::*;
use crate::helpers::ledger_handler::create_ledger_from_transaction;
use crate::types::codec::decimal;
use crate::types::ledger::Ledger;
use crate::types::ledger::NewLedger;
use crate::types::transaction::NewTransaction;
use crate::types::user::UserId;

verus! {

/// What is to be done next to carry a loan or a payment out. Both are
/// carried out in the same way.
#[derive(Debug)]
pub enum LoanStep {
    /// Ask the store for the ledgers on which `borrower` owes `owes`.
    FindLedger { borrower: UserId, owes: UserId },
    /// Have the store take up this ledger.
    InsertLedger(NewLedger),
    /// Have the store keep this ledger, which has its new amount.
    UpdateLedger(Ledger),
    /// Have the store take up the transaction.
    RecordTransaction,
    /// Nothing is left to do; the transaction has been carried out or not.
    Done(bool),
}

/// A transaction of a party with itself moves nothing: it is passed over
/// without a word and without a call of the store.
pub fn is_self_transaction(transaction: &NewTransaction) -> (own: bool)
    ensures
        own == (transaction.initiator == transaction.reciever),
{
    transaction.initiator == transaction.reciever
}

/// The first step: a transaction of a party with itself is given up, and
/// for every other the ledger is looked for on which the receiver owes the
/// initiator.
pub fn begin_loan(transaction: &NewTransaction) -> (step: LoanStep)
    ensures
        step == if transaction.reciever == transaction.initiator {
            LoanStep::Done(false)
        } else {
            LoanStep::FindLedger { borrower: transaction.reciever, owes: transaction.initiator }
        },
{
    if transaction.reciever == transaction.initiator {
        return LoanStep::Done(false);
    }
    LoanStep::FindLedger { borrower: transaction.reciever, owes: transaction.initiator }
}

/// The step after the store has answered for the ledgers, with `None` where
/// it failed. The first ledger found takes the amount of the transaction on
/// top of its own; where none was found, a new ledger is opened; where the
/// store failed, the transaction is given up.
pub fn ledgers_found(transaction: &NewTransaction, found: Option<Vec<Ledger>>) -> (step: LoanStep)
    requires
        found matches Some(ledgers) ==> ledgers@.len() > 0 ==> i32::MIN <= ledgers@[0].sum
            + transaction.sum <= i32::MAX,
    ensures
        match found {
            None => step == LoanStep::Done(false),
            Some(ledgers) => if ledgers@.len() > 0 {
                step == LoanStep::UpdateLedger(
                    ledgers@[0].with_sum(ledgers@[0].sum + transaction.sum),
                )
            } else {
                &&& step matches LoanStep::InsertLedger(ledger)
                &&& ledger.borrower@ == decimal(transaction.reciever.0 as nat)
                &&& ledger.owes@ == decimal(transaction.initiator.0 as nat)
                &&& ledger.sum == 0
            },
        },
{
    match found {
        Some(mut ledgers) => {
            // query could succeed but be empty, since
            // the ledger might not yet exist
            if ledgers.len() > 0 {
                let ledger = ledgers.remove(0);
                ledger_inserted(transaction, Some(ledger))
            } else {
                LoanStep::InsertLedger(create_ledger_from_transaction(transaction))
            }
        },
        None => LoanStep::Done(false),
    }
}

/// The step after the store has taken up a new ledger, with `None` where it
/// failed: the ledger takes the amount of the transaction on top of its
/// own; where the store failed, the transaction is given up.
pub fn ledger_inserted(transaction: &NewTransaction, inserted: Option<Ledger>) -> (step: LoanStep)
    requires
        inserted matches Some(ledger) ==> i32::MIN <= ledger.sum + transaction.sum <= i32::MAX,
    ensures
        step == match inserted {
            None => LoanStep::Done(false),
            Some(ledger) => LoanStep::UpdateLedger(ledger.with_sum(ledger.sum + transaction.sum)),
        },
{
    match inserted {
        Some(mut ledger) => {
            ledger.sum += transaction.sum;
            LoanStep::UpdateLedger(ledger)
        },
        None => LoanStep::Done(false),
    }
}

/// The step after the store has kept the ledger or failed to: the
/// transaction is taken up next, or given up.
pub fn ledger_updated(updated: bool) -> (step: LoanStep)
    ensures
        step == if updated {
            LoanStep::RecordTransaction
        } else {
            LoanStep::Done(false)
        },
{
    if updated {
        LoanStep::RecordTransaction
    } else {
        LoanStep::Done(false)
    }
}

/// The step after the store has taken up the transaction or failed to:
/// nothing is left to do.
pub fn transaction_recorded(recorded: bool) -> (step: LoanStep)
    ensures
        step == LoanStep::Done(recorded),
{
    LoanStep::Done(recorded)
}

} // verus!
