use vstd::prelude::*;
use crate::types::ledger::Ledger;
use crate::types::transaction_type::TransactionType;
use crate::types::user::User;
use crate::types::user::UserId;

verus! {

pub const LOAN_DESCRIPTION: &'static str =
    "/loan <amount> <@people>\nThe command loans money to the specified people. The action is constructed from 3 parts (<command> <amount> <poeple>). Amount is a numeric value where the decimal point may be specified with y dot '.' and not comma ','. You may list as many people as you wish as long as they are tagged with a mention (@name). The fee will bi equaly split among the target people.";

pub const PAY_DESCRIPTION: &'static str =
    "/pay <amount> <@people>\nThe command will repay the full amount specified to all mentioned people (as long as they are mentioned with @name). If you pay more than you own, the reviever will own you the difference after the transaction completes.";

pub const HISTORY_DESCRIPTION: &'static str =
    "/history <number of transactions>\nThe histroy command will display the last completed transactions. You may also specify the amount of transactions displayed, but it defaults to 10 if the argument is not specified.";

pub const BALANCE_DESCRIPTION: &'static str =
    "/balance\nThe command will display the current state of debt.";

/// What the sender is told when a transaction could not be carried out.
pub const TRANSACTION_FAILED: &'static str =
    "Oops! Something went wrong when processing the transaction! :(";

/// One line of a balance: who owes how much, in hundredths, to whom.
#[derive(Debug)]
pub struct BalanceLine {
    pub borrower: String,
    pub sum: i32,
    pub owes: String,
}

/// The word for what the sender of a transaction has done.
pub fn action_word(trans_type: TransactionType) -> (word: String)
    ensures
        word@ == match trans_type {
            TransactionType::Loan => "loaned"@,
            TransactionType::Payment => "payed"@,
        },
{
    match trans_type {
        TransactionType::Loan => "loaned".to_string(),
        TransactionType::Payment => "payed".to_string(),
    }
}

/// The name of the first of the users who has the identifier `uid`.
pub open spec fn username_of(users: Seq<User>, uid: UserId) -> Option<String>
    decreases users.len(),
{
    if users.len() == 0 {
        None
    } else if users[0].user_id == uid {
        Some(users[0].username)
    } else {
        username_of(users.skip(1), uid)
    }
}

/// The name of the user with the identifier `uid`, if there is such a user.
pub fn map_user_id_to_username(uid: &UserId, users: &Vec<User>) -> (name: Option<String>)
    ensures
        name == username_of(users@, *uid),
{
    let mut i: usize = 0;
    proof {
        assert(users@.skip(0) =~= users@);
    }
    while i < users.len()
        invariant
            i <= users@.len(),
            username_of(users@, *uid) == username_of(users@.skip(i as int), *uid),
        decreases users@.len() - i,
    {
        proof {
            assert(users@.skip(i as int)[0] == users@[i as int]);
            assert(users@.skip(i as int).skip(1) =~= users@.skip(i + 1));
        }
        if users[i].user_id == *uid {
            return Some(users[i].username.clone());
        }
        i += 1;
    }
    None
}

/// The lines of a balance: one for every ledger that carries an amount and
/// whose two parties are both among the users, in the order of the ledgers.
pub open spec fn lines_of(ledgers: Seq<Ledger>, users: Seq<User>) -> Seq<BalanceLine>
    decreases ledgers.len(),
{
    if ledgers.len() == 0 {
        Seq::empty()
    } else {
        let rest = lines_of(ledgers.drop_last(), users);
        let ledger = ledgers.last();
        if ledger.sum == 0 {
            rest
        } else {
            match (username_of(users, ledger.borrower), username_of(users, ledger.owes)) {
                (Some(borrower), Some(owes)) => rest.push(
                    BalanceLine { borrower, sum: ledger.sum, owes },
                ),
                _ => rest,
            }
        }
    }
}

/// The lines of the balance of a group.
pub fn balance_lines(ledgers: &Vec<Ledger>, users: &Vec<User>) -> (lines: Vec<BalanceLine>)
    ensures
        lines@ == lines_of(ledgers@, users@),
{
    let mut lines: Vec<BalanceLine> = Vec::new();
    let mut i: usize = 0;
    while i < ledgers.len()
        invariant
            i <= ledgers@.len(),
            lines@ == lines_of(ledgers@.take(i as int), users@),
        decreases ledgers@.len() - i,
    {
        proof {
            assert(ledgers@.take(i + 1).drop_last() =~= ledgers@.take(i as int));
            assert(ledgers@.take(i + 1).last() == ledgers@[i as int]);
        }
        let ledger = &ledgers[i];
        if ledger.sum != 0 {
            if let Some(borrower) = map_user_id_to_username(&ledger.borrower, users) {
                if let Some(owes) = map_user_id_to_username(&ledger.owes, users) {
                    lines.push(BalanceLine { borrower, sum: ledger.sum, owes });
                }
            }
        }
        i += 1;
    }
    proof {
        assert(ledgers@.take(i as int) =~= ledgers@);
    }
    lines
}

} // verus!
