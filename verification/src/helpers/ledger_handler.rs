use vstd::prelude::*;
use crate::types::codec::decimal;
use crate::types::codec::user_id_to_json;
use crate::types::ledger::NewLedger;
use crate::types::transaction::NewTransaction;

verus! {

/// The ledger that a transaction opens where its two parties have none yet:
/// the receiver is the borrower, the initiator is owed, and the amount is
/// still nothing. The two parties are written as JSON documents.
pub fn create_ledger_from_transaction(transaction: &NewTransaction) -> (ledger: NewLedger)
    ensures
        ledger.borrower@ == decimal(transaction.reciever.0 as nat),
        ledger.owes@ == decimal(transaction.initiator.0 as nat),
        ledger.sum == 0,
{
    NewLedger {
        borrower: user_id_to_json(transaction.reciever),
        owes: user_id_to_json(transaction.initiator),
        sum: 0,
    }
}

} // verus!
