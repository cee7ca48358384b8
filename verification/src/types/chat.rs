use vstd::prelude::*;
use crate::types::codec::chat_id_from_json;
use crate::types::codec::decimal;
use crate::types::codec::fresh_id;
use crate::types::codec::json_i64;
use crate::types::codec::json_u64;
use crate::types::codec::read_chat_id;
use crate::types::codec::read_user_id;
use crate::types::codec::signed_decimal;
use crate::types::codec::user_id_from_json;
use crate::types::codec::RowError;
use crate::types::user::UserId;

verus! {

/// Identifier of a chat, as the chat platform numbers its chats.
#[derive(Clone, Copy, Debug, PartialEq, Eq, Structural, Hash)]
pub struct ChatId(pub i64);

/// Membership of one party in one chat.
#[derive(Debug)]
pub struct Chat {
    pub id: String,
    pub user_id: UserId,
    pub chat_id: ChatId,
}

/// A membership as a database row.
#[derive(Debug)]
pub struct SqliteChat {
    pub id: String,
    pub user_id: String,
    pub chat_id: String,
}

/// A membership that has no row id yet.
pub struct NewChat {
    pub user_id: UserId,
    pub chat_id: ChatId,
}

impl Chat {
    /// The membership that a row holds, once the two identifiers of the row
    /// have been read, or the first column that could not be read.
    pub open spec fn of_row(id: String, user_id: Option<UserId>, chat_id: Option<ChatId>) -> Result<
        Chat,
        RowError,
    > {
        match (user_id, chat_id) {
            (Some(user_id), Some(chat_id)) => Ok(Chat { id, user_id, chat_id }),
            (None, _) => Err(RowError::UserId),
            (Some(_), None) => Err(RowError::ChatId),
        }
    }

    /// Puts a membership together from the columns of a row, once the two
    /// identifiers have been read.
    pub fn from_parts(id: String, user_id: Option<UserId>, chat_id: Option<ChatId>) -> (chat: Result<
        Chat,
        RowError,
    >)
        ensures
            chat == Chat::of_row(id, user_id, chat_id),
    {
        match (user_id, chat_id) {
            (Some(user_id), Some(chat_id)) => Ok(Chat { id, user_id, chat_id }),
            (None, _) => Err(RowError::UserId),
            (Some(_), None) => Err(RowError::ChatId),
        }
    }

    /// The membership that a row of the store holds. The two identifiers are
    /// read as JSON documents; a row of which one cannot be read is refused.
    pub fn from(chat: SqliteChat) -> (read: Result<Chat, RowError>)
        ensures
            read == Chat::of_row(
                chat.id,
                read_user_id(json_u64(chat.user_id@)),
                read_chat_id(json_i64(chat.chat_id@)),
            ),
    {
        let user_id = user_id_from_json(chat.user_id.as_str());
        let chat_id = chat_id_from_json(chat.chat_id.as_str());
        Chat::from_parts(chat.id, user_id, chat_id)
    }
}

impl SqliteChat {
    /// The row that keeps a membership: the two identifiers are written in
    /// decimal digits.
    pub fn from(chat: Chat) -> (row: SqliteChat)
        ensures
            row.id == chat.id,
            row.user_id@ == decimal(chat.user_id.0 as nat),
            row.chat_id@ == signed_decimal(chat.chat_id.0 as int),
    {
        SqliteChat {
            id: chat.id,
            user_id: chat.user_id.to_string(),
            chat_id: chat.chat_id.to_string(),
        }
    }

    /// The row for a new membership, under a fresh row id.
    pub fn from_new(chat: NewChat) -> (row: SqliteChat)
        ensures
            row.id@.len() == 36,
            row.user_id@ == decimal(chat.user_id.0 as nat),
            row.chat_id@ == signed_decimal(chat.chat_id.0 as int),
    {
        SqliteChat {
            id: fresh_id(),
            user_id: chat.user_id.to_string(),
            chat_id: chat.chat_id.to_string(),
        }
    }
}

} // verus!
