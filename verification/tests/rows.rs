use debt_tracker::helpers::ledger_handler::create_ledger_from_transaction;
use debt_tracker::types::chat::Chat;
use debt_tracker::types::chat::ChatId;
use debt_tracker::types::chat::NewChat;
use debt_tracker::types::chat::SqliteChat;
use debt_tracker::types::codec::chat_id_from_json;
use debt_tracker::types::codec::created_from_text;
use debt_tracker::types::codec::decimal_text;
use debt_tracker::types::codec::signed_decimal_text;
use debt_tracker::types::codec::user_id_from_json;
use debt_tracker::types::codec::user_id_to_json;
use debt_tracker::types::codec::RowError;
use debt_tracker::types::ledger::Ledger;
use debt_tracker::types::ledger::NewLedger;
use debt_tracker::types::ledger::SqliteLedger;
use debt_tracker::types::transaction::NewTransaction;
use debt_tracker::types::transaction::SqliteTransaction;
use debt_tracker::types::transaction::Transaction;
use debt_tracker::types::transaction_type::TransactionType;
use debt_tracker::types::user::NewUser;
use debt_tracker::types::user::SqliteUser;
use debt_tracker::types::user::User;
use debt_tracker::types::user::UserId;

fn noon() -> chrono::NaiveDateTime {
    chrono::NaiveDate::from_ymd_opt(2016, 11, 15).unwrap().and_hms_opt(7, 39, 24).unwrap()
}

fn is_fresh_id(id: &str) -> bool {
    id.len() == 36
        && id.char_indices().all(|(i, c)| match i {
            8 | 13 | 18 | 23 => c == '-',
            _ => c.is_ascii_hexdigit(),
        })
}

fn transaction_row() -> SqliteTransaction {
    SqliteTransaction {
        id: "t1".to_string(),
        transaction_type: "Payment".to_string(),
        initiator: "11".to_string(),
        reciever: "22".to_string(),
        sum: 1250,
        description: "/pay 12,50 @anna".to_string(),
        created: "2016-11-15 07:39:24".to_string(),
    }
}

#[test]
fn a_user_id_is_written_in_decimal_digits() {
    assert_eq!(UserId(0).to_string(), "0");
    assert_eq!(UserId(7).to_string(), "7");
    assert_eq!(UserId(1087968824).to_string(), "1087968824");
    assert_eq!(UserId(u64::MAX).to_string(), "18446744073709551615");
    assert_eq!(user_id_to_json(UserId(0)), "0");
    assert_eq!(user_id_to_json(UserId(420)), "420");
    assert_eq!(user_id_to_json(UserId(u64::MAX)), "18446744073709551615");
}

#[test]
fn a_number_is_written_digit_by_digit() {
    for value in [0u64, 1, 9, 10, 11, 99, 100, 101, 909, 1000, 4294967296, u64::MAX - 1, u64::MAX] {
        assert_eq!(decimal_text(value), format!("{}", value));
    }
    for value in [0i64, 1, -1, 9, -9, 10, -10, 12345, -12345, i64::MAX, i64::MIN + 1, i64::MIN] {
        assert_eq!(signed_decimal_text(value), format!("{}", value));
    }
}

#[test]
fn a_chat_id_is_written_with_its_sign() {
    assert_eq!(ChatId(0).to_string(), "0");
    assert_eq!(ChatId(15).to_string(), "15");
    assert_eq!(ChatId(-1001234567890).to_string(), "-1001234567890");
    assert_eq!(ChatId(i64::MIN).to_string(), "-9223372036854775808");
}

#[test]
fn a_user_id_is_read_from_a_json_number() {
    assert_eq!(user_id_from_json("11"), Some(UserId(11)));
    assert_eq!(user_id_from_json(" 11\n"), Some(UserId(11)));
    assert_eq!(user_id_from_json("18446744073709551615"), Some(UserId(u64::MAX)));
    assert_eq!(user_id_from_json("18446744073709551616"), None);
    assert_eq!(user_id_from_json("-1"), None);
    assert_eq!(user_id_from_json("1.5"), None);
    assert_eq!(user_id_from_json("\"11\""), None);
    assert_eq!(user_id_from_json("eleven"), None);
    assert_eq!(user_id_from_json(""), None);
}

#[test]
fn a_chat_id_is_read_from_a_json_number() {
    assert_eq!(chat_id_from_json("-1001234567890"), Some(ChatId(-1001234567890)));
    assert_eq!(chat_id_from_json("15"), Some(ChatId(15)));
    assert_eq!(chat_id_from_json("9223372036854775808"), None);
    assert_eq!(chat_id_from_json("chat"), None);
}

#[test]
fn a_time_is_read_in_the_form_of_the_store() {
    assert_eq!(created_from_text("2016-11-15 07:39:24"), Some(noon()));
    assert!(created_from_text("2016-11-15 07:39:24.250").is_some());
    assert_eq!(created_from_text("2016-11-15T07:39:24"), None);
    assert_eq!(created_from_text("15.11.2016"), None);
}

#[test]
fn a_ledger_is_read_from_its_row() {
    let row = SqliteLedger {
        id: "l1".to_string(),
        borrower: "11".to_string(),
        owes: "22".to_string(),
        sum: 500,
    };
    let ledger = Ledger::from(row).unwrap();
    assert_eq!(ledger.id, "l1");
    assert_eq!(ledger.borrower, UserId(11));
    assert_eq!(ledger.owes, UserId(22));
    assert_eq!(ledger.sum, 500);
}

#[test]
fn a_ledger_row_with_a_party_that_is_no_number_is_refused() {
    let row = SqliteLedger {
        id: "l1".to_string(),
        borrower: "anna".to_string(),
        owes: "22".to_string(),
        sum: 500,
    };
    assert_eq!(Ledger::from(row).unwrap_err(), RowError::UserId);
    let row = SqliteLedger {
        id: "l1".to_string(),
        borrower: "11".to_string(),
        owes: "".to_string(),
        sum: 500,
    };
    assert_eq!(Ledger::from(row).unwrap_err(), RowError::UserId);
    let refused = Ledger::from_parts("l1".to_string(), None, Some(UserId(2)), 5);
    assert_eq!(refused.unwrap_err(), RowError::UserId);
    let read = Ledger::from_parts("l1".to_string(), Some(UserId(1)), Some(UserId(2)), 5).unwrap();
    assert_eq!((read.borrower, read.owes, read.sum), (UserId(1), UserId(2), 5));
}

#[test]
fn a_ledger_is_written_to_its_row() {
    let ledger =
        Ledger { id: "l1".to_string(), borrower: UserId(11), owes: UserId(22), sum: 500 };
    let row = SqliteLedger::from(ledger);
    assert_eq!(row.id, "l1");
    assert_eq!(row.borrower, "11");
    assert_eq!(row.owes, "22");
    assert_eq!(row.sum, 500);
}

#[test]
fn a_new_ledger_gets_a_fresh_row_id() {
    let new = NewLedger { borrower: "11".to_string(), owes: "22".to_string(), sum: 0 };
    let row = SqliteLedger::from_new(new);
    assert!(is_fresh_id(&row.id));
    assert_eq!(row.borrower, "11");
    assert_eq!(row.owes, "22");
    assert_eq!(row.sum, 0);
    let other = SqliteLedger::from_new(NewLedger {
        borrower: "11".to_string(),
        owes: "22".to_string(),
        sum: 0,
    });
    assert_ne!(row.id, other.id);
}

#[test]
fn a_user_goes_to_its_row_and_back() {
    let row = SqliteUser::from(User {
        id: "u1".to_string(),
        user_id: UserId(11),
        username: "anna".to_string(),
    });
    assert_eq!((row.id.as_str(), row.user_id.as_str(), row.name.as_str()), ("u1", "11", "anna"));
    let user = User::from(row).unwrap();
    assert_eq!(user.id, "u1");
    assert_eq!(user.user_id, UserId(11));
    assert_eq!(user.username, "anna");
}

#[test]
fn a_user_row_with_an_identifier_that_is_no_number_is_refused() {
    let row =
        SqliteUser { id: "u1".to_string(), user_id: "x11".to_string(), name: "anna".to_string() };
    assert_eq!(User::from(row).unwrap_err(), RowError::UserId);
    let refused = User::from_parts("u1".to_string(), None, "anna".to_string());
    assert_eq!(refused.unwrap_err(), RowError::UserId);
}

#[test]
fn a_new_user_gets_a_fresh_row_id() {
    let row = SqliteUser::from_new(NewUser { user_id: UserId(11), username: "anna".to_string() });
    assert!(is_fresh_id(&row.id));
    assert_eq!(row.user_id, "11");
    assert_eq!(row.name, "anna");
}

#[test]
fn a_chat_goes_to_its_row_and_back() {
    let row = SqliteChat::from(Chat {
        id: "c1".to_string(),
        user_id: UserId(11),
        chat_id: ChatId(-1001234),
    });
    assert_eq!(row.id, "c1");
    assert_eq!(row.user_id, "11");
    assert_eq!(row.chat_id, "-1001234");
    let chat = Chat::from(row).unwrap();
    assert_eq!(chat.id, "c1");
    assert_eq!(chat.user_id, UserId(11));
    assert_eq!(chat.chat_id, ChatId(-1001234));
}

#[test]
fn a_chat_row_is_refused_by_its_first_bad_column() {
    let row =
        SqliteChat { id: "c1".to_string(), user_id: "x".to_string(), chat_id: "y".to_string() };
    assert_eq!(Chat::from(row).unwrap_err(), RowError::UserId);
    let row =
        SqliteChat { id: "c1".to_string(), user_id: "11".to_string(), chat_id: "y".to_string() };
    assert_eq!(Chat::from(row).unwrap_err(), RowError::ChatId);
    let refused = Chat::from_parts("c1".to_string(), Some(UserId(1)), None);
    assert_eq!(refused.unwrap_err(), RowError::ChatId);
}

#[test]
fn a_new_chat_gets_a_fresh_row_id() {
    let row = SqliteChat::from_new(NewChat { user_id: UserId(11), chat_id: ChatId(-5) });
    assert!(is_fresh_id(&row.id));
    assert_eq!(row.user_id, "11");
    assert_eq!(row.chat_id, "-5");
}

#[test]
fn the_kind_of_a_transaction_is_written_by_its_name() {
    assert_eq!(TransactionType::Loan.to_string(), "Loan");
    assert_eq!(TransactionType::Payment.to_string(), "Payment");
    assert_eq!(TransactionType::parse("Loan"), Some(TransactionType::Loan));
    assert_eq!(TransactionType::parse("Payment"), Some(TransactionType::Payment));
    assert_eq!(TransactionType::parse("loan"), None);
    assert_eq!(TransactionType::parse("Loan "), None);
    assert_eq!(TransactionType::parse(""), None);
}

#[test]
fn a_transaction_is_read_from_its_row() {
    let transaction = Transaction::from(transaction_row()).unwrap();
    assert_eq!(transaction.id, "t1");
    assert_eq!(transaction.transaction_type, TransactionType::Payment);
    assert_eq!(transaction.initiator, UserId(11));
    assert_eq!(transaction.reciever, UserId(22));
    assert_eq!(transaction.sum, 1250);
    assert_eq!(transaction.description, "/pay 12,50 @anna");
    assert_eq!(transaction.created, noon());
}

#[test]
fn a_transaction_row_is_refused_by_its_first_bad_column() {
    let mut row = transaction_row();
    row.transaction_type = "Gift".to_string();
    row.initiator = "x".to_string();
    row.created = "yesterday".to_string();
    assert_eq!(Transaction::from(row).unwrap_err(), RowError::TransactionType);
    let mut row = transaction_row();
    row.initiator = "x".to_string();
    row.created = "yesterday".to_string();
    assert_eq!(Transaction::from(row).unwrap_err(), RowError::UserId);
    let mut row = transaction_row();
    row.reciever = "-22".to_string();
    assert_eq!(Transaction::from(row).unwrap_err(), RowError::UserId);
    let mut row = transaction_row();
    row.created = "yesterday".to_string();
    assert_eq!(Transaction::from(row).unwrap_err(), RowError::Created);
    let refused = Transaction::from_parts(
        "t1".to_string(),
        Some(TransactionType::Loan),
        Some(UserId(1)),
        Some(UserId(2)),
        5,
        "d".to_string(),
        None,
    );
    assert_eq!(refused.unwrap_err(), RowError::Created);
}

#[test]
fn a_transaction_is_written_to_its_row() {
    let row = SqliteTransaction::from(Transaction {
        id: "t1".to_string(),
        transaction_type: TransactionType::Loan,
        initiator: UserId(11),
        reciever: UserId(22),
        sum: 1250,
        description: "lunch".to_string(),
        created: noon(),
    });
    assert_eq!(row.id, "t1");
    assert_eq!(row.transaction_type, "Loan");
    assert_eq!(row.initiator, "11");
    assert_eq!(row.reciever, "22");
    assert_eq!(row.sum, 1250);
    assert_eq!(row.description, "lunch");
    assert_eq!(row.created, "2016-11-15 07:39:24");
    let back = Transaction::from(row).unwrap();
    assert_eq!(back.created, noon());
    assert_eq!(back.transaction_type, TransactionType::Loan);
}

#[test]
fn a_new_transaction_gets_a_fresh_row_id() {
    let row = SqliteTransaction::from_new(NewTransaction {
        transaction_type: TransactionType::Payment,
        initiator: UserId(11),
        reciever: UserId(22),
        sum: -40,
        description: "back".to_string(),
        created: noon(),
    });
    assert!(is_fresh_id(&row.id));
    assert_eq!(row.transaction_type, "Payment");
    assert_eq!(row.initiator, "11");
    assert_eq!(row.reciever, "22");
    assert_eq!(row.sum, -40);
    assert_eq!(row.description, "back");
    assert_eq!(row.created, "2016-11-15 07:39:24");
}

#[test]
fn a_transaction_opens_a_ledger_on_which_the_receiver_owes() {
    let transaction = NewTransaction {
        transaction_type: TransactionType::Loan,
        initiator: UserId(11),
        reciever: UserId(22),
        sum: 1250,
        description: "lunch".to_string(),
        created: noon(),
    };
    let ledger = create_ledger_from_transaction(&transaction);
    assert_eq!(ledger.borrower, "22");
    assert_eq!(ledger.owes, "11");
    assert_eq!(ledger.sum, 0);
}
