use vstd::prelude::*;
use vstd::utf8::encode_utf8;
use vstd::utf8::is_char_boundary;
use crate::types::codec::now;
use crate::types::transaction::NewTransaction;
use crate::types::transaction_type::TransactionType;
use crate::types::user::User;
use crate::types::user::UserId;

verus! {

/// Why a message is no loan and no payment.
#[derive(Debug, Clone, Copy, PartialEq, Eq, Structural)]
pub enum ValidationError {
    /// Nobody is named as the sender of the message.
    NotRegistered,
    /// The sender is not registered exactly once.
    TooManyUsers,
    /// The message is none that a user writes.
    NotCommonMessage,
    /// The message holds no text.
    NotTextMedia,
    /// The text names no amount after the command.
    AmountNotSpecified,
    /// None of the users mentioned is registered.
    NoRecievers,
}

impl ValidationError {
    /// The error as the sender is told it.
    pub fn message(&self) -> (text: String)
        ensures
            text@ == match *self {
                ValidationError::NotRegistered =>
                    "You don't seem to be registered. Just type /register and retry the command."@,
                ValidationError::TooManyUsers =>
                    "Seems like there is an issue with too many registered users with the same ID. Please contact the developer."@,
                ValidationError::NotCommonMessage => "Not common message"@,
                ValidationError::NotTextMedia => "Not text media"@,
                ValidationError::AmountNotSpecified => "Amount not specified correctly"@,
                ValidationError::NoRecievers => "No recievers recognised."@,
            },
    {
        match self {
            ValidationError::NotRegistered =>
                "You don't seem to be registered. Just type /register and retry the command.".to_string(),
            ValidationError::TooManyUsers =>
                "Seems like there is an issue with too many registered users with the same ID. Please contact the developer.".to_string(),
            ValidationError::NotCommonMessage => "Not common message".to_string(),
            ValidationError::NotTextMedia => "Not text media".to_string(),
            ValidationError::AmountNotSpecified => "Amount not specified correctly".to_string(),
            ValidationError::NoRecievers => "No recievers recognised.".to_string(),
        }
    }
}

/// What a marked stretch of a text is.
#[derive(Debug, Clone, Copy, PartialEq, Eq, Structural)]
pub enum MessageEntityKind {
    /// The name of a user, with the sign before it.
    Mention,
    Other,
}

/// A marked stretch of a text: where it begins, in bytes, and how long it is.
#[derive(Debug, Clone, Copy, PartialEq, Eq, Structural)]
pub struct MessageEntity {
    pub kind: MessageEntityKind,
    pub offset: usize,
    pub length: usize,
}

/// The text of a message and its marked stretches.
#[derive(Debug)]
pub struct MediaText {
    pub text: String,
    pub entities: Vec<MessageEntity>,
}

/// What a message of a user holds.
#[derive(Debug)]
pub enum MediaKind {
    Text(MediaText),
    Other,
}

/// What a message is.
#[derive(Debug)]
pub enum MessageKind {
    /// A message that a user has written.
    Common(MediaKind),
    Other,
}

/// A message of the chat, as far as a loan or a payment is read from it.
#[derive(Debug)]
pub struct Message {
    pub from: Option<UserId>,
    pub kind: MessageKind,
}

/// The fragments that `split_whitespace` of std finds in `text`, in order.
pub uninterp spec fn fragments(text: Seq<char>) -> Seq<Seq<char>>;

/// `text` with a point in place of every comma.
pub open spec fn commas_to_points(text: Seq<char>) -> Seq<char> {
    Seq::new(
        text.len(),
        |i: int|
            if text[i] == ',' {
                '.'
            } else {
                text[i]
            },
    )
}

/// `split_whitespace` of std, gathered into a vector. The fragments it
/// gives are named, not described: `fragments`.
#[verifier::external_body]
fn split_fragments(text: &str) -> (parts: Vec<String>)
    ensures
        parts.deep_view() == fragments(text@),
{
    text.split_whitespace().map(String::from).collect()
}

/// `replace` of std with a comma for the pattern and a point to put in
/// its place: every comma becomes a point, and nothing else changes.
#[verifier::external_body]
fn replace_commas(text: &str) -> (replaced: String)
    ensures
        replaced@ == commas_to_points(text@),
{
    text.replace(',', ".")
}

/// The stretch from `from` up to `to` can be cut out of a text: `from` does
/// not lie behind `to`, and both lie between characters of the text.
pub open spec fn can_cut(text: Seq<u8>, from: int, to: int) -> bool {
    from <= to && is_char_boundary(text, from) && is_char_boundary(text, to)
}

/// `get` of std on a text with a range of bytes: the stretch from `from`
/// up to `to` where it can be cut out, nothing otherwise.
#[verifier::external_body]
fn stretch(text: &str, from: usize, to: usize) -> (part: Option<&str>)
    ensures
        part is Some == can_cut(encode_utf8(text@), from as int, to as int),
        part is Some ==> encode_utf8(part->0@) == encode_utf8(text@).subrange(
            from as int,
            to as int,
        ),
{
    text.get(from..to)
}

/// The description of a transaction is the whole text of the message.
pub fn extract_description(text: &String) -> (description: Result<String, ValidationError>)
    ensures
        description == Ok::<String, ValidationError>(*text),
{
    Ok(text.clone())
}

/// The sender of a message, given the users that are registered under the
/// identifier of the sender: a message without a sender is refused, and so
/// is a sender who is not registered exactly once.
pub fn extract_user(from: Option<UserId>, found: Vec<User>) -> (sender: Result<User, ValidationError>)
    ensures
        sender == match from {
            None => Err::<User, ValidationError>(ValidationError::NotRegistered),
            Some(_) => if found@.len() == 1 {
                Ok(found@[0])
            } else {
                Err(ValidationError::TooManyUsers)
            },
        },
{
    let mut found = found;
    match from {
        None => Err(ValidationError::NotRegistered),
        Some(_) => {
            if found.len() == 1 {
                match found.pop() {
                    None => Err(ValidationError::NotRegistered),
                    Some(u) => Ok(u),
                }
            } else {
                Err(ValidationError::TooManyUsers)
            }
        },
    }
}

/// The text of a message: a message that no user has written is refused,
/// and so is one that holds no text.
pub fn extract_text(message: &Message) -> (media: Result<&MediaText, ValidationError>)
    ensures
        media == match message.kind {
            MessageKind::Common(MediaKind::Text(text)) => Ok::<&MediaText, ValidationError>(&text),
            MessageKind::Common(MediaKind::Other) => Err(ValidationError::NotTextMedia),
            MessageKind::Other => Err(ValidationError::NotCommonMessage),
        },
{
    // check message type
    let mes = match &message.kind {
        MessageKind::Common(mes) => mes,
        _ => return Err(ValidationError::NotCommonMessage),
    };
    // extract media (text)
    match mes {
        MediaKind::Text(media) => Ok(media),
        _ => Err(ValidationError::NotTextMedia),
    }
}

/// What a message asks for, once it has been found in order: who sends it,
/// the amount in hundredths, the text with its marked stretches, the
/// description, and whether it is a loan or a payment.
#[derive(Debug)]
pub struct Validated<'a> {
    pub sender: User,
    pub amount: i32,
    pub media: &'a MediaText,
    pub description: String,
    pub transaction_type: TransactionType,
}

/// What `validate_message` gives: the checks are made in this order, and the
/// first that fails tells the refusal. The sender has to be named and
/// registered exactly once, a user has to have written the message, the
/// message has to hold a text, and the text has to name an amount.
pub open spec fn validated<'a>(
    message: &'a Message,
    found: Seq<User>,
    amount: Option<i32>,
    message_type: TransactionType,
) -> Result<Validated<'a>, ValidationError> {
    match message.from {
        None => Err(ValidationError::NotRegistered),
        Some(_) => if found.len() != 1 {
            Err(ValidationError::TooManyUsers)
        } else {
            match message.kind {
                MessageKind::Other => Err(ValidationError::NotCommonMessage),
                MessageKind::Common(MediaKind::Other) => Err(ValidationError::NotTextMedia),
                MessageKind::Common(MediaKind::Text(media)) => match amount {
                    None => Err(ValidationError::AmountNotSpecified),
                    Some(amount) => Ok(
                        Validated {
                            sender: found[0],
                            amount,
                            media: &media,
                            description: media.text,
                            transaction_type: message_type,
                        },
                    ),
                },
            }
        },
    }
}

/// Finds a message in order, given the users registered under the
/// identifier of its sender and the amount that its text names, in
/// hundredths, if it names one.
pub fn validate_message<'a>(
    message: &'a Message,
    found: Vec<User>,
    amount: Option<i32>,
    message_type: TransactionType,
) -> (checked: Result<Validated<'a>, ValidationError>)
    ensures
        checked == validated(message, found@, amount, message_type),
{
    // find sender -> throw any invalid states
    let user = match extract_user(message.from, found) {
        Ok(user) => user,
        Err(e) => return Err(e),
    };
    // check message type and extract media (text)
    let media = match extract_text(message) {
        Ok(media) => media,
        Err(e) => return Err(e),
    };
    // the amount to be loaned to recievers
    let amount = match amount {
        Some(a) => a,
        None => return Err(ValidationError::AmountNotSpecified),
    };
    // extract description
    let description = match extract_description(&media.text) {
        Ok(desc) => desc,
        Err(e) => return Err(e),
    };
    Ok(Validated { sender: user, amount, media, description, transaction_type: message_type })
}

/// Finds the message of a loan in order.
pub fn validate_loan_message<'a>(message: &'a Message, found: Vec<User>, amount: Option<i32>) -> (checked:
    Result<Validated<'a>, ValidationError>)
    ensures
        checked == validated(message, found@, amount, TransactionType::Loan),
{
    validate_message(message, found, amount, TransactionType::Loan)
}

/// Finds the message of a payment in order.
pub fn validate_pay_message<'a>(message: &'a Message, found: Vec<User>, amount: Option<i32>) -> (checked:
    Result<Validated<'a>, ValidationError>)
    ensures
        checked == validated(message, found@, amount, TransactionType::Payment),
{
    validate_message(message, found, amount, TransactionType::Payment)
}

/// The amount among the fragments of a text: the second fragment, the first
/// being the command, with points for commas.
pub open spec fn amount_of(parts: Seq<Seq<char>>) -> Option<Seq<char>> {
    if parts.len() < 2 {
        None
    } else {
        Some(commas_to_points(parts[1]))
    }
}

/// The fragment that holds the amount, picked among the fragments of a text
/// and with points for commas, ready to be read as a number.
pub fn amount_fragment(parts: &Vec<String>) -> (amount: Option<String>)
    ensures
        amount.deep_view() == amount_of(parts.deep_view()),
{
    if parts.len() < 2 {
        return None;
    }
    let amount = replace_commas(parts[1].as_str());
    proof {
        assert(parts.deep_view()[1] == parts@[1]@);
    }
    Some(amount)
}

/// The fragment of a text that holds the amount of a loan, with points for
/// commas, ready to be read as a number.
pub fn extract_loan_amount(text: &str) -> (amount: Option<String>)
    ensures
        amount.deep_view() == amount_of(fragments(text@)),
{
    let text_fragments = split_fragments(text);
    amount_fragment(&text_fragments)
}

/// Where the name of a mentioned user begins and ends in the text, the sign
/// before the name left out; nothing where the numbers do not fit the
/// machine.
pub open spec fn name_range(entity: MessageEntity) -> Option<(int, int)> {
    if entity.offset + 1 <= usize::MAX && entity.offset + entity.length <= usize::MAX {
        Some((entity.offset + 1, entity.offset + entity.length))
    } else {
        None
    }
}

/// The name of the mention `entity` can be cut out of the text.
pub open spec fn name_fits(text: Seq<u8>, entity: MessageEntity) -> bool {
    match name_range(entity) {
        Some((from, to)) => can_cut(text, from, to),
        None => false,
    }
}

/// The name of a mentioned user, cut out of the text; nothing where it
/// cannot be cut out.
pub fn mentioned_name<'a>(text: &'a str, entity: &MessageEntity) -> (name: Option<&'a str>)
    ensures
        name is Some <==> name_fits(encode_utf8(text@), *entity),
        name is Some ==> encode_utf8(name->0@) == encode_utf8(text@).subrange(
            entity.offset + 1,
            entity.offset + entity.length,
        ),
{
    if entity.offset == usize::MAX || entity.length > usize::MAX - entity.offset {
        return None;
    }
    stretch(text, entity.offset + 1, entity.offset + entity.length)
}

/// The mentions among the marked stretches of a text, in order.
pub open spec fn mentions(entities: Seq<MessageEntity>) -> Seq<MessageEntity> {
    entities.filter(|entity: MessageEntity| entity.kind == MessageEntityKind::Mention)
}

/// The names of the users that a text mentions, in order; nothing where one
/// of the names cannot be cut out of the text.
pub fn mentioned_names(message: &MediaText) -> (names: Option<Vec<String>>)
    ensures
        names is Some <==> forall|k: int|
            0 <= k < mentions(message.entities@).len() ==> name_fits(
                encode_utf8(message.text@),
                #[trigger] mentions(message.entities@)[k],
            ),
        names is Some ==> names->0@.len() == mentions(message.entities@).len() && forall|k: int|
            0 <= k < names->0@.len() ==> encode_utf8((#[trigger] names->0@[k])@) == encode_utf8(
                message.text@,
            ).subrange(
                mentions(message.entities@)[k].offset + 1,
                mentions(message.entities@)[k].offset + mentions(message.entities@)[k].length,
            ),
{
    let text = message.text.as_str();
    let ghost pick = |entity: MessageEntity| entity.kind == MessageEntityKind::Mention;
    let mut names: Vec<String> = Vec::new();
    let mut i: usize = 0;
    while i < message.entities.len()
        invariant
            i <= message.entities@.len(),
            text@ == message.text@,
            pick == (|entity: MessageEntity| entity.kind == MessageEntityKind::Mention),
            names@.len() == message.entities@.take(i as int).filter(pick).len(),
            forall|k: int|
                0 <= k < names@.len() ==> name_fits(
                    encode_utf8(text@),
                    #[trigger] message.entities@.take(i as int).filter(pick)[k],
                ),
            forall|k: int|
                0 <= k < names@.len() ==> encode_utf8((#[trigger] names@[k])@) == encode_utf8(
                    text@,
                ).subrange(
                    message.entities@.take(i as int).filter(pick)[k].offset + 1,
                    message.entities@.take(i as int).filter(pick)[k].offset
                        + message.entities@.take(i as int).filter(pick)[k].length,
                ),
        decreases message.entities@.len() - i,
    {
        let entity = &message.entities[i];
        let ghost seen = message.entities@.take(i as int).filter(pick);
        proof {
            assert(message.entities@.take(i + 1) =~= message.entities@.take(i as int).push(
                *entity,
            ));
            message.entities@.take(i as int).lemma_filter_push(*entity, pick);
        }
        match entity.kind {
            MessageEntityKind::Mention => {
                match mentioned_name(text, entity) {
                    Some(name) => {
                        let owned = name.to_string();
                        names.push(owned);
                        proof {
                            let now = message.entities@.take(i + 1).filter(pick);
                            assert(now == seen.push(*entity));
                            assert(forall|k: int| 0 <= k < seen.len() ==> now[k] == seen[k]);
                            assert(owned@ == name@);
                        }
                    },
                    None => {
                        proof {
                            let rest = message.entities@.skip(i + 1);
                            assert(message.entities@ =~= message.entities@.take(i + 1) + rest);
                            Seq::filter_distributes_over_add(message.entities@.take(i + 1), rest, pick);
                            let all = mentions(message.entities@);
                            let k = seen.len() as int;
                            assert(all[k] == *entity);
                        }
                        return None;
                    },
                }
            },
            _ => {},
        }
        i += 1;
    }
    proof {
        assert(message.entities@.take(i as int) =~= message.entities@);
    }
    Some(names)
}

/// The lists that a vector of vectors holds.
pub open spec fn lists(found: Seq<Vec<User>>) -> Seq<Seq<User>> {
    Seq::new(found.len(), |i: int| found[i]@)
}

/// The users found for the names that a text mentions: of the users found
/// under one name the last counts, and a name under which nobody was found
/// is passed over.
pub open spec fn recievers_of(found: Seq<Seq<User>>) -> Seq<User>
    decreases found.len(),
{
    if found.len() == 0 {
        Seq::empty()
    } else if found.last().len() == 0 {
        recievers_of(found.drop_last())
    } else {
        recievers_of(found.drop_last()).push(found.last().last())
    }
}

/// The receivers of a transaction, given for every mentioned name the users
/// that are registered under it.
pub fn extract_recievers(found: Vec<Vec<User>>) -> (recievers: Vec<User>)
    ensures
        recievers@ == recievers_of(lists(found@)),
{
    let mut found = found;
    let ghost all = lists(found@);
    let mut users: Vec<User> = Vec::new();
    let mut rest: Vec<Vec<User>> = Vec::new();
    // the last name comes off first, so the users are gathered back to front
    while found.len() > 0
        invariant
            recievers_of(lists(found@)) + users@.reverse() == recievers_of(all),
        decreases found@.len(),
    {
        let ghost before = lists(found@);
        let mut found_users = found.pop().unwrap();
        proof {
            assert(lists(found@) =~= before.drop_last());
            assert(before.last() == found_users@);
        }
        let ghost gathered = users@;
        match found_users.pop() {
            Some(u) => {
                users.push(u);
                proof {
                    let kept = recievers_of(lists(found@));
                    assert(users@.reverse() =~= seq![u] + gathered.reverse());
                    assert(kept.push(u) + gathered.reverse() =~= kept + users@.reverse());
                }
            },
            None => {},
        }
        rest.push(found_users);
    }
    let mut recievers: Vec<User> = Vec::new();
    while users.len() > 0
        invariant
            recievers@ + users@.reverse() == recievers_of(all),
        decreases users@.len(),
    {
        let ghost before = users@;
        let ghost gathered = recievers@;
        let u = users.pop().unwrap();
        recievers.push(u);
        proof {
            assert(before.reverse() =~= seq![u] + users@.reverse());
            assert(gathered.push(u) + users@.reverse() =~= gathered + before.reverse());
        }
    }
    proof {
        assert(users@.reverse() =~= Seq::<User>::empty());
        assert(recievers@ + Seq::<User>::empty() =~= recievers@);
    }
    recievers
}

/// The share of each of `count` receivers in `amount`, rounded towards
/// nothing.
pub open spec fn share(amount: int, count: int) -> int {
    if amount >= 0 {
        amount / count
    } else {
        -((-amount) / count)
    }
}

/// One transaction for each receiver, each over an equal share of the
/// amount, which is given in hundredths. A transaction without receivers is
/// refused. The time of each transaction is the time on the clock when it is
/// made.
pub fn into_transactions(
    sender: User,
    int_amount: i32,
    recievers: Vec<User>,
    description: String,
    trans_type: TransactionType,
) -> (transactions: Result<Vec<NewTransaction>, ValidationError>)
    requires
        recievers@.len() <= i32::MAX,
    ensures
        match transactions {
            Ok(made) => {
                &&& recievers@.len() > 0
                &&& made@.len() == recievers@.len()
                &&& forall|k: int|
                    0 <= k < made@.len() ==> {
                        &&& (#[trigger] made@[k]).transaction_type == trans_type
                        &&& made@[k].initiator == sender.user_id
                        &&& made@[k].reciever == recievers@[k].user_id
                        &&& made@[k].sum == share(int_amount as int, recievers@.len() as int)
                        &&& made@[k].description == description
                    }
            },
            Err(e) => e == ValidationError::NoRecievers && recievers@.len() == 0,
        },
{
    if recievers.len() == 0 {
        return Err(ValidationError::NoRecievers);
    }
    let count = recievers.len() as i32;
    let one_share = if int_amount >= 0 {
        int_amount / count
    } else if int_amount == i32::MIN {
        if count == 1 {
            i32::MIN
        } else {
            -(i32::MAX / count) - if i32::MAX % count == count - 1 { 1i32 } else { 0i32 }
        }
    } else {
        -((-int_amount) / count)
    };
    proof {
        lemma_share(int_amount as int, count as int, one_share as int);
    }
    let mut transactions: Vec<NewTransaction> = Vec::new();
    let mut k: usize = 0;
    while k < recievers.len()
        invariant
            k <= recievers@.len(),
            transactions@.len() == k,
            forall|m: int|
                0 <= m < k ==> {
                    &&& (#[trigger] transactions@[m]).transaction_type == trans_type
                    &&& transactions@[m].initiator == sender.user_id
                    &&& transactions@[m].reciever == recievers@[m].user_id
                    &&& transactions@[m].sum == one_share
                    &&& transactions@[m].description == description
                },
        decreases recievers@.len() - k,
    {
        transactions.push(
            NewTransaction {
                transaction_type: trans_type,
                initiator: sender.user_id,
                reciever: recievers[k].user_id,
                sum: one_share,
                description: description.clone(),
                created: now(),
            },
        );
        k += 1;
    }
    Ok(transactions)
}

proof fn lemma_share(amount: int, count: int, computed: int)
    requires
        i32::MIN <= amount <= i32::MAX,
        1 <= count <= i32::MAX,
        computed == if amount >= 0 {
            amount / count
        } else if amount == i32::MIN {
            if count == 1 {
                i32::MIN as int
            } else {
                -((i32::MAX as int) / count) - if (i32::MAX as int) % count == count - 1 {
                    1int
                } else {
                    0int
                }
            }
        } else {
            -((-amount) / count)
        },
    ensures
        computed == share(amount, count),
{
    if amount == i32::MIN {
        let max = i32::MAX as int;
        assert(-amount == max + 1);
        assert((max + 1) / count == max / count + if max % count == count - 1 {
            1int
        } else {
            0int
        }) by (nonlinear_arith)
            requires
                count >= 1,
                max >= 0,
        ;
    }
}

} // verus!
