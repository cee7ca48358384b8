use vstd::prelude::*;
use crate::types::codec::created_from_text;
use crate::types::codec::decimal;
use crate::types::codec::fresh_id;
use crate::types::codec::is_timestamp;
use crate::types::codec::json_u64;
use crate::types::codec::read_user_id;
use crate::types::codec::timestamp_to_text;
use crate::types::codec::user_id_from_json;
use crate::types::codec::RowError;
use crate::types::transaction_type::TransactionType;
use crate::types::user::UserId;

verus! {

/// A recorded debt action.
#[derive(Debug)]
pub struct Transaction {
    pub id: String,
    pub transaction_type: TransactionType,
    pub initiator: UserId,
    pub reciever: UserId,
    pub sum: i32,
    pub description: String,
    pub created: chrono::NaiveDateTime,
}

/// A recorded debt action as a database row.
#[derive(Debug)]
pub struct SqliteTransaction {
    pub id: String,
    pub transaction_type: String,
    pub initiator: String,
    pub reciever: String,
    pub sum: i32,
    pub description: String,
    pub created: String,
}

/// A debt action that has no row id yet.
#[derive(Debug)]
pub struct NewTransaction {
    pub transaction_type: TransactionType,
    pub initiator: UserId,
    pub reciever: UserId,
    pub sum: i32,
    pub description: String,
    pub created: chrono::NaiveDateTime,
}

impl Transaction {
    /// The transaction that a row holds, once its columns have been read, or
    /// the first column that could not be read: the kind comes first, then
    /// the initiator, the receiver, and the time.
    pub open spec fn of_row(
        id: String,
        transaction_type: Option<TransactionType>,
        initiator: Option<UserId>,
        reciever: Option<UserId>,
        sum: i32,
        description: String,
        created: Option<chrono::NaiveDateTime>,
    ) -> Result<Transaction, RowError> {
        match (transaction_type, initiator, reciever, created) {
            (Some(transaction_type), Some(initiator), Some(reciever), Some(created)) => Ok(
                Transaction { id, transaction_type, initiator, reciever, sum, description, created },
            ),
            (None, _, _, _) => Err(RowError::TransactionType),
            (Some(_), None, _, _) => Err(RowError::UserId),
            (Some(_), Some(_), None, _) => Err(RowError::UserId),
            (Some(_), Some(_), Some(_), None) => Err(RowError::Created),
        }
    }

    /// Puts a transaction together from the columns of a row, once they have
    /// been read.
    pub fn from_parts(
        id: String,
        transaction_type: Option<TransactionType>,
        initiator: Option<UserId>,
        reciever: Option<UserId>,
        sum: i32,
        description: String,
        created: Option<chrono::NaiveDateTime>,
    ) -> (transaction: Result<Transaction, RowError>)
        ensures
            transaction == Transaction::of_row(
                id,
                transaction_type,
                initiator,
                reciever,
                sum,
                description,
                created,
            ),
    {
        match (transaction_type, initiator, reciever, created) {
            (Some(transaction_type), Some(initiator), Some(reciever), Some(created)) => Ok(
                Transaction { id, transaction_type, initiator, reciever, sum, description, created },
            ),
            (None, _, _, _) => Err(RowError::TransactionType),
            (Some(_), None, _, _) => Err(RowError::UserId),
            (Some(_), Some(_), None, _) => Err(RowError::UserId),
            (Some(_), Some(_), Some(_), None) => Err(RowError::Created),
        }
    }

    /// The transaction that a row of the store holds. The kind is read by its
    /// name, the two parties as JSON documents, the time in the form
    /// `%Y-%m-%d %H:%M:%S%.f`; a row of which a column cannot be read is
    /// refused. The time that is read is whatever the text stands for: the
    /// contract leaves it open.
    pub fn from(transaction: SqliteTransaction) -> (read: Result<Transaction, RowError>)
        ensures
            exists|created: Option<chrono::NaiveDateTime>|
                created is Some == is_timestamp(transaction.created@) && read
                    == #[trigger] Transaction::of_row(
                    transaction.id,
                    TransactionType::named(transaction.transaction_type@),
                    read_user_id(json_u64(transaction.initiator@)),
                    read_user_id(json_u64(transaction.reciever@)),
                    transaction.sum,
                    transaction.description,
                    created,
                ),
    {
        let transaction_type = TransactionType::parse(transaction.transaction_type.as_str());
        let initiator = user_id_from_json(transaction.initiator.as_str());
        let reciever = user_id_from_json(transaction.reciever.as_str());
        let created = created_from_text(transaction.created.as_str());
        let read = Transaction::from_parts(
            transaction.id,
            transaction_type,
            initiator,
            reciever,
            transaction.sum,
            transaction.description,
            created,
        );
        proof {
            assert(read == Transaction::of_row(
                transaction.id,
                TransactionType::named(transaction.transaction_type@),
                read_user_id(json_u64(transaction.initiator@)),
                read_user_id(json_u64(transaction.reciever@)),
                transaction.sum,
                transaction.description,
                created,
            ));
        }
        read
    }
}

impl SqliteTransaction {
    /// The row that keeps a transaction: the kind is written by its name, the
    /// two parties in decimal digits, the time as the time type writes it.
    pub fn from(transaction: Transaction) -> (row: SqliteTransaction)
        ensures
            row.id == transaction.id,
            row.transaction_type@ == transaction.transaction_type.name(),
            row.initiator@ == decimal(transaction.initiator.0 as nat),
            row.reciever@ == decimal(transaction.reciever.0 as nat),
            row.sum == transaction.sum,
            row.description == transaction.description,
    {
        SqliteTransaction {
            id: transaction.id,
            transaction_type: transaction.transaction_type.to_string(),
            initiator: transaction.initiator.to_string(),
            reciever: transaction.reciever.to_string(),
            sum: transaction.sum,
            description: transaction.description,
            created: timestamp_to_text(&transaction.created),
        }
    }

    /// The row for a new transaction, under a fresh row id.
    pub fn from_new(transaction: NewTransaction) -> (row: SqliteTransaction)
        ensures
            row.id@.len() == 36,
            row.transaction_type@ == transaction.transaction_type.name(),
            row.initiator@ == decimal(transaction.initiator.0 as nat),
            row.reciever@ == decimal(transaction.reciever.0 as nat),
            row.sum == transaction.sum,
            row.description == transaction.description,
    {
        SqliteTransaction {
            id: fresh_id(),
            transaction_type: transaction.transaction_type.to_string(),
            initiator: transaction.initiator.to_string(),
            reciever: transaction.reciever.to_string(),
            sum: transaction.sum,
            description: transaction.description,
            created: timestamp_to_text(&transaction.created),
        }
    }
}

} // verus!
