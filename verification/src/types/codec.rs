use vstd::prelude::*;
use vstd::string::StringExecFns;
use crate::types::chat::ChatId;
use crate::types::user::UserId;

verus! {

/// `serde_json::Error`: why a JSON document could not be read or written.
/// It is carried through and never looked into.
#[verifier::external_type_specification]
#[verifier::external_body]
pub struct ExJsonError(serde_json::Error);

/// `chrono::NaiveDateTime`: a point in time without a time zone. It is
/// carried through and never looked into.
#[verifier::external_type_specification]
#[verifier::external_body]
pub struct ExNaiveDateTime(chrono::NaiveDateTime);

/// `chrono::ParseError`: why a text is no point in time. It is carried
/// through and never looked into.
#[verifier::external_type_specification]
#[verifier::external_body]
pub struct ExTimestampError(chrono::ParseError);

/// What `serde_json::from_str` reads from `text` as a `u64`, if it reads
/// one.
pub uninterp spec fn json_u64(text: Seq<char>) -> Option<u64>;

/// What `serde_json::from_str` reads from `text` as an `i64`, if it reads
/// one.
pub uninterp spec fn json_i64(text: Seq<char>) -> Option<i64>;

/// Whether `chrono::NaiveDateTime::parse_from_str` reads `text` as a point
/// in time in the form `%Y-%m-%d %H:%M:%S%.f`.
pub uninterp spec fn is_timestamp(text: Seq<char>) -> bool;

/// Which column of a database row could not be read.
#[derive(Debug, Clone, Copy, PartialEq, Eq, Structural)]
pub enum RowError {
    /// The identifier of a user is no number.
    UserId,
    /// The identifier of a chat is no number.
    ChatId,
    /// The kind of a transaction is none of the known ones.
    TransactionType,
    /// The time of a transaction is not written as it should be.
    Created,
}

pub open spec fn digit(d: int) -> char {
    if d == 0 {
        '0'
    } else if d == 1 {
        '1'
    } else if d == 2 {
        '2'
    } else if d == 3 {
        '3'
    } else if d == 4 {
        '4'
    } else if d == 5 {
        '5'
    } else if d == 6 {
        '6'
    } else if d == 7 {
        '7'
    } else if d == 8 {
        '8'
    } else {
        '9'
    }
}

/// A natural number in decimal digits.
pub open spec fn decimal(n: nat) -> Seq<char>
    decreases n,
{
    if n < 10 {
        seq![digit(n as int)]
    } else {
        decimal(n / 10).push(digit((n % 10) as int))
    }
}

/// An integer in decimal digits, with a minus sign before a negative one.
pub open spec fn signed_decimal(n: int) -> Seq<char> {
    if n < 0 {
        seq!['-'] + decimal((-n) as nat)
    } else {
        decimal(n as nat)
    }
}

/// `uuid::Uuid::new_v4`, written out with `to_string`: a fresh random
/// identifier. Which one comes is left open; it is claimed only that it is
/// written in the hyphenated form, which has 36 characters.
#[verifier::external_body]
pub(crate) fn fresh_id() -> (id: String)
    ensures
        id@.len() == 36,
{
    uuid::Uuid::new_v4().to_string()
}

/// `serde_json::to_string` on a `u64`. It is claimed that this never fails
/// and gives the number in decimal digits.
#[verifier::external_body]
pub(crate) fn u64_to_json(value: u64) -> (text: Result<String, serde_json::Error>)
    ensures
        text is Ok,
        text->Ok_0@ == decimal(value as nat),
{
    serde_json::to_string(&value)
}

/// `serde_json::from_str` for a `u64`. The number it reads is named, not
/// described: `json_u64`.
#[verifier::external_body]
pub(crate) fn u64_from_json(text: &str) -> (value: Result<u64, serde_json::Error>)
    ensures
        match value {
            Ok(v) => json_u64(text@) == Some(v),
            Err(_) => json_u64(text@) is None,
        },
{
    serde_json::from_str::<u64>(text)
}

/// `serde_json::from_str` for an `i64`. The number it reads is named, not
/// described: `json_i64`.
#[verifier::external_body]
pub(crate) fn i64_from_json(text: &str) -> (value: Result<i64, serde_json::Error>)
    ensures
        match value {
            Ok(v) => json_i64(text@) == Some(v),
            Err(_) => json_i64(text@) is None,
        },
{
    serde_json::from_str::<i64>(text)
}

/// One decimal digit as a text.
fn digit_text(d: u64) -> (text: &'static str)
    requires
        d < 10,
    ensures
        text@ == seq![digit(d as int)],
{
    proof {
        reveal_strlit("0");
        reveal_strlit("1");
        reveal_strlit("2");
        reveal_strlit("3");
        reveal_strlit("4");
        reveal_strlit("5");
        reveal_strlit("6");
        reveal_strlit("7");
        reveal_strlit("8");
        reveal_strlit("9");
    }
    let text = if d == 0 {
        "0"
    } else if d == 1 {
        "1"
    } else if d == 2 {
        "2"
    } else if d == 3 {
        "3"
    } else if d == 4 {
        "4"
    } else if d == 5 {
        "5"
    } else if d == 6 {
        "6"
    } else if d == 7 {
        "7"
    } else if d == 8 {
        "8"
    } else {
        "9"
    };
    proof {
        assert(text@ =~= seq![digit(d as int)]);
    }
    text
}

/// A number in decimal digits.
pub fn decimal_text(value: u64) -> (text: String)
    ensures
        text@ == decimal(value as nat),
    decreases value,
{
    if value < 10 {
        String::from_str(digit_text(value))
    } else {
        let mut text = decimal_text(value / 10);
        text.append(digit_text(value % 10));
        proof {
            assert(text@ =~= decimal((value / 10) as nat).push(digit((value % 10) as int)));
        }
        text
    }
}

/// A number in decimal digits, with a minus sign before a negative one.
pub fn signed_decimal_text(value: i64) -> (text: String)
    ensures
        text@ == signed_decimal(value as int),
{
    if value >= 0 {
        decimal_text(value as u64)
    } else {
        proof {
            reveal_strlit("-");
        }
        let mut text = String::from_str("-");
        let size = (-(value + 1)) as u64 + 1;
        let digits = decimal_text(size);
        text.append(digits.as_str());
        proof {
            assert(text@ =~= seq!['-'] + decimal((-value) as nat));
        }
        text
    }
}

/// `chrono::NaiveDateTime::parse_from_str` with the format
/// `%Y-%m-%d %H:%M:%S%.f`. Whether it reads the text is named, not
/// described: `is_timestamp`. Nothing is claimed of the point in time read.
#[verifier::external_body]
pub(crate) fn timestamp_from_text(text: &str) -> (created: Result<
    chrono::NaiveDateTime,
    chrono::ParseError,
>)
    ensures
        created is Ok <==> is_timestamp(text@),
{
    chrono::NaiveDateTime::parse_from_str(text, "%Y-%m-%d %H:%M:%S%.f")
}

/// `to_string` of `chrono::NaiveDateTime`. Nothing is claimed of the text.
#[verifier::external_body]
pub(crate) fn timestamp_to_text(created: &chrono::NaiveDateTime) -> String {
    created.to_string()
}

/// `chrono::Utc::now`, taken as a `NaiveDateTime` with `naive_utc`: the time
/// on the clock. Nothing is claimed of it.
#[verifier::external_body]
pub(crate) fn now() -> chrono::NaiveDateTime {
    chrono::Utc::now().naive_utc()
}

/// The identifier of a user as the JSON document that the store keeps.
pub fn user_id_to_json(user_id: UserId) -> (text: String)
    ensures
        text@ == decimal(user_id.0 as nat),
{
    match u64_to_json(user_id.0) {
        Ok(text) => text,
        Err(_) => String::new(),
    }
}

/// The identifier of a user that the JSON document `text` holds.
pub fn user_id_from_json(text: &str) -> (user_id: Option<UserId>)
    ensures
        user_id == read_user_id(json_u64(text@)),
{
    match u64_from_json(text) {
        Ok(value) => Some(UserId(value)),
        Err(_) => None,
    }
}

/// The identifier of a chat that the JSON document `text` holds.
pub fn chat_id_from_json(text: &str) -> (chat_id: Option<ChatId>)
    ensures
        chat_id == read_chat_id(json_i64(text@)),
{
    match i64_from_json(text) {
        Ok(value) => Some(ChatId(value)),
        Err(_) => None,
    }
}

/// The point in time that `text` holds.
pub fn created_from_text(text: &str) -> (created: Option<chrono::NaiveDateTime>)
    ensures
        created is Some <==> is_timestamp(text@),
{
    match timestamp_from_text(text) {
        Ok(created) => Some(created),
        Err(_) => None,
    }
}

pub open spec fn read_user_id(number: Option<u64>) -> Option<UserId> {
    match number {
        Some(value) => Some(UserId(value)),
        None => None,
    }
}

pub open spec fn read_chat_id(number: Option<i64>) -> Option<ChatId> {
    match number {
        Some(value) => Some(ChatId(value)),
        None => None,
    }
}

impl UserId {
    /// The identifier in decimal digits.
    pub fn to_string(&self) -> (text: String)
        ensures
            text@ == decimal(self.0 as nat),
    {
        decimal_text(self.0)
    }
}

impl ChatId {
    /// The identifier in decimal digits.
    pub fn to_string(&self) -> (text: String)
        ensures
            text@ == signed_decimal(self.0 as int),
    {
        signed_decimal_text(self.0)
    }
}

} // verus!
