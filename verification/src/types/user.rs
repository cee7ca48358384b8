use vstd::prelude::*;
use crate::types::codec::decimal;
use crate::types::codec::fresh_id;
use crate::types::codec::json_u64;
use crate::types::codec::read_user_id;
use crate::types::codec::user_id_from_json;
use crate::types::codec::RowError;

verus! {

/// Identifier of a party, as the chat platform numbers its users.
#[derive(Clone, Copy, Debug, PartialEq, Eq, Structural, Hash)]
pub struct UserId(pub u64);

/// A registered party.
#[derive(Debug)]
pub struct User {
    pub id: String,
    pub user_id: UserId,
    pub username: String,
}

/// A registered party as a database row.
#[derive(Debug)]
pub struct SqliteUser {
    pub id: String,
    pub user_id: String,
    pub name: String,
}

/// A party that is about to be registered and has no row id yet.
pub struct NewUser {
    pub user_id: UserId,
    pub username: String,
}

impl User {
    /// The user that a row holds, once the identifier of the row has been
    /// read, or the column that could not be read.
    pub open spec fn of_row(id: String, user_id: Option<UserId>, username: String) -> Result<
        User,
        RowError,
    > {
        match user_id {
            Some(user_id) => Ok(User { id, user_id, username }),
            None => Err(RowError::UserId),
        }
    }

    /// Puts a user together from the columns of a row, once the identifier
    /// has been read.
    pub fn from_parts(id: String, user_id: Option<UserId>, username: String) -> (user: Result<
        User,
        RowError,
    >)
        ensures
            user == User::of_row(id, user_id, username),
    {
        match user_id {
            Some(user_id) => Ok(User { id, user_id, username }),
            None => Err(RowError::UserId),
        }
    }

    /// The user that a row of the store holds. The identifier is read as a
    /// JSON document; a row whose identifier cannot be read is refused.
    pub fn from(user: SqliteUser) -> (read: Result<User, RowError>)
        ensures
            read == User::of_row(user.id, read_user_id(json_u64(user.user_id@)), user.name),
    {
        let user_id = user_id_from_json(user.user_id.as_str());
        User::from_parts(user.id, user_id, user.name)
    }
}

impl SqliteUser {
    /// The row that keeps a user: the identifier is written in decimal
    /// digits.
    pub fn from(user: User) -> (row: SqliteUser)
        ensures
            row.id == user.id,
            row.user_id@ == decimal(user.user_id.0 as nat),
            row.name == user.username,
    {
        SqliteUser { id: user.id, user_id: user.user_id.to_string(), name: user.username }
    }

    /// The row for a new user, under a fresh row id.
    pub fn from_new(user: NewUser) -> (row: SqliteUser)
        ensures
            row.id@.len() == 36,
            row.user_id@ == decimal(user.user_id.0 as nat),
            row.name == user.username,
    {
        SqliteUser { id: fresh_id(), user_id: user.user_id.to_string(), name: user.username }
    }
}

} // verus!
