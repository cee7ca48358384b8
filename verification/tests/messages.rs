use debt_tracker::helpers::message_validator::amount_fragment;
use debt_tracker::helpers::message_validator::extract_description;
use debt_tracker::helpers::message_validator::extract_loan_amount;
use debt_tracker::helpers::message_validator::extract_recievers;
use debt_tracker::helpers::message_validator::extract_text;
use debt_tracker::helpers::message_validator::extract_user;
use debt_tracker::helpers::message_validator::into_transactions;
use debt_tracker::helpers::message_validator::mentioned_name;
use debt_tracker::helpers::message_validator::mentioned_names;
use debt_tracker::helpers::message_validator::validate_loan_message;
use debt_tracker::helpers::message_validator::validate_message;
use debt_tracker::helpers::message_validator::validate_pay_message;
use debt_tracker::helpers::message_validator::MediaKind;
use debt_tracker::helpers::message_validator::MediaText;
use debt_tracker::helpers::message_validator::Message;
use debt_tracker::helpers::message_validator::MessageEntity;
use debt_tracker::helpers::message_validator::MessageEntityKind;
use debt_tracker::helpers::message_validator::MessageKind;
use debt_tracker::helpers::message_validator::ValidationError;
use debt_tracker::helpers::text_helper::action_word;
use debt_tracker::helpers::text_helper::balance_lines;
use debt_tracker::helpers::text_helper::map_user_id_to_username;
use debt_tracker::helpers::text_helper::BALANCE_DESCRIPTION;
use debt_tracker::helpers::text_helper::HISTORY_DESCRIPTION;
use debt_tracker::helpers::text_helper::LOAN_DESCRIPTION;
use debt_tracker::helpers::text_helper::PAY_DESCRIPTION;
use debt_tracker::helpers::text_helper::TRANSACTION_FAILED;
use debt_tracker::helpers::transaction_handler::begin_loan;
use debt_tracker::helpers::transaction_handler::is_self_transaction;
use debt_tracker::helpers::transaction_handler::ledger_inserted;
use debt_tracker::helpers::transaction_handler::ledger_updated;
use debt_tracker::helpers::transaction_handler::ledgers_found;
use debt_tracker::helpers::transaction_handler::transaction_recorded;
use debt_tracker::helpers::transaction_handler::LoanStep;
use debt_tracker::types::ledger::Ledger;
use debt_tracker::types::transaction::NewTransaction;
use debt_tracker::types::transaction_type::TransactionType;
use debt_tracker::types::user::User;
use debt_tracker::types::user::UserId;

fn person(id: u64, name: &str) -> User {
    User { id: format!("row-{}", id), user_id: UserId(id), username: name.to_string() }
}

fn mention(offset: usize, length: usize) -> MessageEntity {
    MessageEntity { kind: MessageEntityKind::Mention, offset, length }
}

fn other(offset: usize, length: usize) -> MessageEntity {
    MessageEntity { kind: MessageEntityKind::Other, offset, length }
}

fn text_message(text: &str, entities: Vec<MessageEntity>) -> Message {
    Message {
        from: Some(UserId(11)),
        kind: MessageKind::Common(MediaKind::Text(MediaText { text: text.to_string(), entities })),
    }
}

fn loan(initiator: u64, reciever: u64, sum: i32) -> NewTransaction {
    NewTransaction {
        transaction_type: TransactionType::Loan,
        initiator: UserId(initiator),
        reciever: UserId(reciever),
        sum,
        description: "lunch".to_string(),
        created: chrono::NaiveDate::from_ymd_opt(2020, 1, 2).unwrap().and_hms_opt(3, 4, 5).unwrap(),
    }
}

fn book(id: &str, borrower: u64, owes: u64, sum: i32) -> Ledger {
    Ledger { id: id.to_string(), borrower: UserId(borrower), owes: UserId(owes), sum }
}

#[test]
fn the_description_is_the_whole_text() {
    let text = String::from("/loan 12,50 @anna lunch");
    assert_eq!(extract_description(&text), Ok(text.clone()));
    assert_eq!(extract_description(&String::new()), Ok(String::new()));
}

#[test]
fn the_sender_has_to_be_registered_exactly_once() {
    let sender = extract_user(Some(UserId(11)), vec![person(11, "anna")]).unwrap();
    assert_eq!(sender.user_id, UserId(11));
    assert_eq!(sender.username, "anna");
    let nobody = extract_user(Some(UserId(11)), Vec::new());
    assert_eq!(nobody.unwrap_err(), ValidationError::TooManyUsers);
    let twice = extract_user(Some(UserId(11)), vec![person(11, "anna"), person(11, "ann")]);
    assert_eq!(twice.unwrap_err(), ValidationError::TooManyUsers);
    let unnamed = extract_user(None, vec![person(11, "anna")]);
    assert_eq!(unnamed.unwrap_err(), ValidationError::NotRegistered);
}

#[test]
fn only_a_text_written_by_a_user_is_read() {
    let message = text_message("/loan 5 @bob", vec![mention(8, 4)]);
    let media = extract_text(&message).unwrap();
    assert_eq!(media.text, "/loan 5 @bob");
    assert_eq!(media.entities.len(), 1);
    let picture = Message { from: Some(UserId(11)), kind: MessageKind::Common(MediaKind::Other) };
    assert_eq!(extract_text(&picture).unwrap_err(), ValidationError::NotTextMedia);
    let service = Message { from: Some(UserId(11)), kind: MessageKind::Other };
    assert_eq!(extract_text(&service).unwrap_err(), ValidationError::NotCommonMessage);
}

#[test]
fn the_amount_is_the_second_fragment_with_points_for_commas() {
    assert_eq!(extract_loan_amount("/loan 12,50 @anna"), Some("12.50".to_string()));
    assert_eq!(extract_loan_amount("/loan 12.50 @anna"), Some("12.50".to_string()));
    assert_eq!(extract_loan_amount("  /loan \t 1,000,5\n@anna"), Some("1.000.5".to_string()));
    assert_eq!(extract_loan_amount("/pay\u{a0}7"), Some("7".to_string()));
    assert_eq!(extract_loan_amount("/loan @anna 12"), Some("@anna".to_string()));
    assert_eq!(extract_loan_amount("/loan"), None);
    assert_eq!(extract_loan_amount("   "), None);
    assert_eq!(extract_loan_amount(""), None);
}

#[test]
fn the_amount_is_picked_among_the_fragments() {
    let parts = vec!["/loan".to_string(), "3,5".to_string(), "@bob".to_string()];
    assert_eq!(amount_fragment(&parts), Some("3.5".to_string()));
    assert_eq!(amount_fragment(&vec!["/loan".to_string()]), None);
    assert_eq!(amount_fragment(&Vec::new()), None);
}

#[test]
fn the_name_of_a_mention_is_cut_out_without_its_sign() {
    let text = "/loan 5 @bob and @anna";
    assert_eq!(mentioned_name(text, &mention(8, 4)), Some("bob"));
    assert_eq!(mentioned_name(text, &mention(17, 5)), Some("anna"));
    assert_eq!(mentioned_name(text, &mention(17, 1)), Some(""));
    assert_eq!(mentioned_name(text, &mention(17, 6)), None);
    assert_eq!(mentioned_name(text, &mention(17, 0)), None);
    assert_eq!(mentioned_name(text, &mention(40, 2)), None);
    assert_eq!(mentioned_name(text, &mention(usize::MAX, 2)), None);
    assert_eq!(mentioned_name(text, &mention(5, usize::MAX)), None);
}

#[test]
fn a_name_is_cut_out_between_characters_only() {
    let text = "/pay 5 €@zoë";
    // the sign before the name begins at byte 10, the name has four bytes
    assert_eq!(mentioned_name(text, &mention(10, 5)), Some("zoë"));
    assert_eq!(mentioned_name(text, &mention(10, 4)), None);
    assert_eq!(mentioned_name(text, &mention(7, 4)), None);
}

#[test]
fn the_names_of_all_mentions_are_told_in_order() {
    let message = MediaText {
        text: "/loan 5 @bob and @anna".to_string(),
        entities: vec![other(0, 5), mention(8, 4), other(13, 3), mention(17, 5)],
    };
    assert_eq!(mentioned_names(&message), Some(vec!["bob".to_string(), "anna".to_string()]));
    let none = MediaText { text: "/loan 5".to_string(), entities: vec![other(0, 5)] };
    assert_eq!(mentioned_names(&none), Some(Vec::new()));
    let broken = MediaText {
        text: "/loan 5 @bob".to_string(),
        entities: vec![mention(8, 4), mention(8, 9)],
    };
    assert_eq!(mentioned_names(&broken), None);
    let ignored = MediaText { text: "/loan 5 @bob".to_string(), entities: vec![other(8, 90)] };
    assert_eq!(mentioned_names(&ignored), Some(Vec::new()));
}

#[test]
fn of_the_users_found_under_a_name_the_last_receives() {
    let found = vec![
        vec![person(22, "bob")],
        Vec::new(),
        vec![person(33, "anna"), person(34, "anna")],
    ];
    let recievers = extract_recievers(found);
    let ids: Vec<u64> = recievers.iter().map(|u| u.user_id.0).collect();
    assert_eq!(ids, vec![22, 34]);
    assert!(extract_recievers(Vec::new()).is_empty());
    assert!(extract_recievers(vec![Vec::new()]).is_empty());
}

#[test]
fn every_receiver_gets_an_equal_share() {
    let made = into_transactions(
        person(11, "anna"),
        1000,
        vec![person(22, "bob"), person(33, "cy"), person(44, "dee")],
        "lunch".to_string(),
        TransactionType::Loan,
    )
    .unwrap();
    assert_eq!(made.len(), 3);
    for (transaction, reciever) in made.iter().zip([22u64, 33, 44]) {
        assert_eq!(transaction.transaction_type, TransactionType::Loan);
        assert_eq!(transaction.initiator, UserId(11));
        assert_eq!(transaction.reciever, UserId(reciever));
        assert_eq!(transaction.sum, 333);
        assert_eq!(transaction.description, "lunch");
    }
}

#[test]
fn a_transaction_is_made_at_the_time_on_the_clock() {
    let before = chrono::Utc::now().naive_utc();
    let made = into_transactions(
        person(11, "anna"),
        500,
        vec![person(22, "bob"), person(33, "cy")],
        "lunch".to_string(),
        TransactionType::Loan,
    )
    .unwrap();
    let after = chrono::Utc::now().naive_utc();
    assert!(before <= made[0].created);
    assert!(made[0].created <= made[1].created);
    assert!(made[1].created <= after);
}

#[test]
fn a_share_is_rounded_towards_nothing() {
    let share = |amount: i32, count: u64| {
        let recievers = (0..count).map(|i| person(100 + i, "r")).collect();
        let made = into_transactions(
            person(11, "anna"),
            amount,
            recievers,
            String::new(),
            TransactionType::Payment,
        )
        .unwrap();
        made[0].sum
    };
    assert_eq!(share(1250, 1), 1250);
    assert_eq!(share(7, 2), 3);
    assert_eq!(share(-7, 2), -3);
    assert_eq!(share(-1000, 3), -333);
    assert_eq!(share(0, 4), 0);
    assert_eq!(share(3, 4), 0);
    assert_eq!(share(i32::MAX, 2), 1073741823);
    assert_eq!(share(i32::MIN, 1), i32::MIN);
    assert_eq!(share(i32::MIN, 2), -1073741824);
    assert_eq!(share(i32::MIN, 3), -715827882);
}

#[test]
fn a_transaction_without_receivers_is_refused() {
    let refused = into_transactions(
        person(11, "anna"),
        1000,
        Vec::new(),
        "lunch".to_string(),
        TransactionType::Loan,
    );
    assert_eq!(refused.unwrap_err(), ValidationError::NoRecievers);
}

#[test]
fn every_refusal_is_told_in_words() {
    assert_eq!(
        ValidationError::NotRegistered.message(),
        "You don't seem to be registered. Just type /register and retry the command."
    );
    assert_eq!(
        ValidationError::TooManyUsers.message(),
        "Seems like there is an issue with too many registered users with the same ID. Please contact the developer."
    );
    assert_eq!(ValidationError::NotCommonMessage.message(), "Not common message");
    assert_eq!(ValidationError::NotTextMedia.message(), "Not text media");
    assert_eq!(ValidationError::AmountNotSpecified.message(), "Amount not specified correctly");
    assert_eq!(ValidationError::NoRecievers.message(), "No recievers recognised.");
}

#[test]
fn the_action_has_its_word() {
    assert_eq!(action_word(TransactionType::Loan), "loaned");
    assert_eq!(action_word(TransactionType::Payment), "payed");
}

#[test]
fn the_commands_are_described() {
    assert!(LOAN_DESCRIPTION.starts_with("/loan <amount> <@people>\n"));
    assert!(PAY_DESCRIPTION.starts_with("/pay <amount> <@people>\n"));
    assert!(HISTORY_DESCRIPTION.starts_with("/history <number of transactions>\n"));
    assert_eq!(BALANCE_DESCRIPTION, "/balance\nThe command will display the current state of debt.");
    assert_eq!(
        TRANSACTION_FAILED,
        "Oops! Something went wrong when processing the transaction! :("
    );
}

#[test]
fn a_user_id_is_mapped_to_the_first_name_under_it() {
    let users = vec![person(11, "anna"), person(22, "bob"), person(11, "ann")];
    assert_eq!(map_user_id_to_username(&UserId(11), &users), Some("anna".to_string()));
    assert_eq!(map_user_id_to_username(&UserId(22), &users), Some("bob".to_string()));
    assert_eq!(map_user_id_to_username(&UserId(33), &users), None);
    assert_eq!(map_user_id_to_username(&UserId(11), &Vec::new()), None);
}

#[test]
fn the_balance_has_a_line_for_every_ledger_that_counts() {
    let users = vec![person(11, "anna"), person(22, "bob")];
    let ledgers = vec![
        book("ab", 11, 22, 1250),
        book("ba", 22, 11, 0),
        book("ac", 11, 33, 40),
        book("ca", 33, 11, 40),
        book("ba2", 22, 11, -300),
    ];
    let lines = balance_lines(&ledgers, &users);
    let told: Vec<(&str, i32, &str)> =
        lines.iter().map(|l| (l.borrower.as_str(), l.sum, l.owes.as_str())).collect();
    assert_eq!(told, vec![("anna", 1250, "bob"), ("bob", -300, "anna")]);
    assert!(balance_lines(&Vec::new(), &users).is_empty());
}

#[test]
fn a_loan_of_a_party_to_itself_is_given_up() {
    assert!(is_self_transaction(&loan(11, 11, 500)));
    assert!(!is_self_transaction(&loan(11, 22, 500)));
    assert!(matches!(begin_loan(&loan(11, 11, 500)), LoanStep::Done(false)));
    match begin_loan(&loan(11, 22, 500)) {
        LoanStep::FindLedger { borrower, owes } => {
            assert_eq!(borrower, UserId(22));
            assert_eq!(owes, UserId(11));
        }
        step => panic!("{:?}", step),
    }
}

#[test]
fn the_first_ledger_found_takes_the_amount() {
    let found = vec![book("ba", 22, 11, 700), book("ba2", 22, 11, 5)];
    match ledgers_found(&loan(11, 22, 500), Some(found)) {
        LoanStep::UpdateLedger(ledger) => {
            assert_eq!(ledger.id, "ba");
            assert_eq!(ledger.sum, 1200);
            assert_eq!(ledger.borrower, UserId(22));
            assert_eq!(ledger.owes, UserId(11));
        }
        step => panic!("{:?}", step),
    }
}

#[test]
fn a_ledger_is_opened_where_none_was_found() {
    match ledgers_found(&loan(11, 22, 500), Some(Vec::new())) {
        LoanStep::InsertLedger(ledger) => {
            assert_eq!(ledger.borrower, "22");
            assert_eq!(ledger.owes, "11");
            assert_eq!(ledger.sum, 0);
        }
        step => panic!("{:?}", step),
    }
    assert!(matches!(ledgers_found(&loan(11, 22, 500), None), LoanStep::Done(false)));
}

#[test]
fn a_ledger_that_was_opened_takes_the_amount() {
    match ledger_inserted(&loan(11, 22, 500), Some(book("ba", 22, 11, 0))) {
        LoanStep::UpdateLedger(ledger) => assert_eq!(ledger.sum, 500),
        step => panic!("{:?}", step),
    }
    match ledger_inserted(&loan(11, 22, -800), Some(book("ba", 22, 11, 300))) {
        LoanStep::UpdateLedger(ledger) => assert_eq!(ledger.sum, -500),
        step => panic!("{:?}", step),
    }
    assert!(matches!(ledger_inserted(&loan(11, 22, 500), None), LoanStep::Done(false)));
}

#[test]
fn the_transaction_is_taken_up_once_the_ledger_is_kept() {
    assert!(matches!(ledger_updated(true), LoanStep::RecordTransaction));
    assert!(matches!(ledger_updated(false), LoanStep::Done(false)));
    assert!(matches!(transaction_recorded(true), LoanStep::Done(true)));
    assert!(matches!(transaction_recorded(false), LoanStep::Done(false)));
}

#[test]
fn a_message_is_found_in_order_check_by_check() {
    let message = text_message("/loan 12,50 @bob", vec![mention(12, 4)]);
    let checked = validate_loan_message(&message, vec![person(11, "anna")], Some(1250)).unwrap();
    assert_eq!(checked.sender.user_id, UserId(11));
    assert_eq!(checked.amount, 1250);
    assert_eq!(checked.media.text, "/loan 12,50 @bob");
    assert_eq!(checked.media.entities.len(), 1);
    assert_eq!(checked.description, "/loan 12,50 @bob");
    assert_eq!(checked.transaction_type, TransactionType::Loan);
    let checked = validate_pay_message(&message, vec![person(11, "anna")], Some(-5)).unwrap();
    assert_eq!(checked.transaction_type, TransactionType::Payment);
    assert_eq!(checked.amount, -5);

    let kind = TransactionType::Loan;
    let unnamed = Message { from: None, kind: MessageKind::Other };
    let refused = validate_message(&unnamed, Vec::new(), None, kind);
    assert_eq!(refused.unwrap_err(), ValidationError::NotRegistered);
    let service = Message { from: Some(UserId(11)), kind: MessageKind::Other };
    let refused = validate_message(&service, Vec::new(), None, kind);
    assert_eq!(refused.unwrap_err(), ValidationError::TooManyUsers);
    let refused = validate_message(&service, vec![person(11, "anna")], None, kind);
    assert_eq!(refused.unwrap_err(), ValidationError::NotCommonMessage);
    let picture = Message { from: Some(UserId(11)), kind: MessageKind::Common(MediaKind::Other) };
    let refused = validate_message(&picture, vec![person(11, "anna")], Some(5), kind);
    assert_eq!(refused.unwrap_err(), ValidationError::NotTextMedia);
    let refused = validate_message(&message, vec![person(11, "anna")], None, kind);
    assert_eq!(refused.unwrap_err(), ValidationError::AmountNotSpecified);
}
