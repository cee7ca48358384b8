use vstd::prelude::*;
use crate::types::codec::decimal;
use crate::types::codec::fresh_id;
use crate::types::codec::json_u64;
use crate::types::codec::read_user_id;
use crate::types::codec::user_id_from_json;
use crate::types::codec::user_id_to_json;
use crate::types::codec::RowError;
use crate::types::user::UserId;

verus! {

/// A directed balance: `borrower` owes `sum` minor currency units to `owes`.
#[derive(Debug, Clone)]
pub struct Ledger {
    pub id: String,
    pub borrower: UserId,
    pub owes: UserId,
    pub sum: i32,
}

/// A balance as a database row.
#[derive(Debug)]
pub struct SqliteLedger {
    pub id: String,
    pub borrower: String,
    pub owes: String,
    pub sum: i32,
}

/// A balance that has no row id yet.
#[derive(Debug)]
pub struct NewLedger {
    pub borrower: String,
    pub owes: String,
    pub sum: i32,
}

impl Ledger {
    /// A ledger is an edge of the debt graph when it carries a positive amount
    /// between two different parties. Only edges are ever netted or cancelled.
    pub open spec fn is_edge(self) -> bool {
        self.sum > 0 && self.borrower != self.owes
    }

    /// The two ledgers run between the same two parties in opposite directions.
    pub open spec fn opposes(self, other: Ledger) -> bool {
        self.borrower == other.owes && self.owes == other.borrower
    }

    /// The same ledger carrying another amount.
    pub open spec fn with_sum(self, sum: int) -> Ledger {
        Ledger { id: self.id, borrower: self.borrower, owes: self.owes, sum: sum as i32 }
    }

    /// The ledger that a row holds, once the two parties of the row have been
    /// read, or the column that could not be read.
    pub open spec fn of_row(
        id: String,
        borrower: Option<UserId>,
        owes: Option<UserId>,
        sum: i32,
    ) -> Result<Ledger, RowError> {
        match (borrower, owes) {
            (Some(borrower), Some(owes)) => Ok(Ledger { id, borrower, owes, sum }),
            _ => Err(RowError::UserId),
        }
    }

    /// Puts a ledger together from the columns of a row, once the two parties
    /// have been read.
    pub fn from_parts(id: String, borrower: Option<UserId>, owes: Option<UserId>, sum: i32) -> (ledger:
        Result<Ledger, RowError>)
        ensures
            ledger == Ledger::of_row(id, borrower, owes, sum),
    {
        match (borrower, owes) {
            (Some(borrower), Some(owes)) => Ok(Ledger { id, borrower, owes, sum }),
            _ => Err(RowError::UserId),
        }
    }

    /// The ledger that a row of the store holds. The two parties are read as
    /// JSON documents; a row whose parties cannot be read is refused.
    pub fn from(ledger: SqliteLedger) -> (read: Result<Ledger, RowError>)
        ensures
            read == Ledger::of_row(
                ledger.id,
                read_user_id(json_u64(ledger.borrower@)),
                read_user_id(json_u64(ledger.owes@)),
                ledger.sum,
            ),
    {
        let borrower = user_id_from_json(ledger.borrower.as_str());
        let owes = user_id_from_json(ledger.owes.as_str());
        Ledger::from_parts(ledger.id, borrower, owes, ledger.sum)
    }

    /// A copy of the ledger.
    pub fn copy(&self) -> (r: Ledger)
        ensures
            r == *self,
    {
        Ledger { id: self.id.clone(), borrower: self.borrower, owes: self.owes, sum: self.sum }
    }
}

impl SqliteLedger {
    /// The row that keeps a ledger: the two parties are written as JSON
    /// documents, which for a number are its decimal digits.
    pub fn from(ledger: Ledger) -> (row: SqliteLedger)
        ensures
            row.id == ledger.id,
            row.borrower@ == decimal(ledger.borrower.0 as nat),
            row.owes@ == decimal(ledger.owes.0 as nat),
            row.sum == ledger.sum,
    {
        SqliteLedger {
            id: ledger.id,
            borrower: user_id_to_json(ledger.borrower),
            owes: user_id_to_json(ledger.owes),
            sum: ledger.sum,
        }
    }

    /// The row for a new ledger, under a fresh row id.
    pub fn from_new(ledger: NewLedger) -> (row: SqliteLedger)
        ensures
            row.id@.len() == 36,
            row.borrower == ledger.borrower,
            row.owes == ledger.owes,
            row.sum == ledger.sum,
    {
        SqliteLedger {
            id: fresh_id(),
            borrower: ledger.borrower,
            owes: ledger.owes,
            sum: ledger.sum,
        }
    }
}

} // verus!
