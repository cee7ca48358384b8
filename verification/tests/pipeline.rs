use debt_tracker::helpers::cycle_detector::detect_debt;
use debt_tracker::helpers::cycle_detector::detect_debt_cycles;
use debt_tracker::helpers::cycle_detector::detect_mutual_debt;
use debt_tracker::types::ledger::Ledger;
use debt_tracker::types::user::User;
use debt_tracker::types::user::UserId;

const A: u64 = 11;
const B: u64 = 22;
const C: u64 = 33;
const D: u64 = 44;
const E: u64 = 55;

fn user(id: u64) -> User {
    User { id: format!("row-{}", id), user_id: UserId(id), username: format!("user{}", id) }
}

fn users(ids: &[u64]) -> Vec<User> {
    ids.iter().map(|id| user(*id)).collect()
}

fn ledger(id: &str, borrower: u64, owes: u64, sum: i32) -> Ledger {
    Ledger { id: id.to_string(), borrower: UserId(borrower), owes: UserId(owes), sum }
}

fn rows(ledgers: &[Ledger]) -> Vec<(String, u64, u64, i32)> {
    ledgers.iter().map(|l| (l.id.clone(), l.borrower.0, l.owes.0, l.sum)).collect()
}

fn row(id: &str, borrower: u64, owes: u64, sum: i32) -> (String, u64, u64, i32) {
    (id.to_string(), borrower, owes, sum)
}

fn owed(ledgers: &[Ledger], x: u64, y: u64) -> i64 {
    ledgers.iter().filter(|l| l.borrower.0 == x && l.owes.0 == y).map(|l| l.sum as i64).sum()
}

fn balance(ledgers: &[Ledger], x: u64) -> i64 {
    let out: i64 = ledgers.iter().filter(|l| l.borrower.0 == x).map(|l| l.sum as i64).sum();
    let into: i64 = ledgers.iter().filter(|l| l.owes.0 == x).map(|l| l.sum as i64).sum();
    out - into
}

fn has_edge(ledgers: &[Ledger], x: u64, y: u64) -> bool {
    ledgers.iter().any(|l| l.borrower.0 == x && l.owes.0 == y && l.sum > 0 && x != y)
}

/// Whether some closed chain of edges leads from `from` back to `target`.
fn reaches(ledgers: &[Ledger], from: u64, target: u64, seen: &mut Vec<u64>) -> bool {
    for l in ledgers.iter().filter(|l| l.borrower.0 == from && l.sum > 0 && l.owes.0 != from) {
        if l.owes.0 == target {
            return true;
        }
        if !seen.contains(&l.owes.0) {
            seen.push(l.owes.0);
            if reaches(ledgers, l.owes.0, target, seen) {
                return true;
            }
        }
    }
    false
}

fn has_cycle(ledgers: &[Ledger], parties: &[u64]) -> bool {
    parties.iter().any(|p| reaches(ledgers, *p, *p, &mut vec![*p]))
}

fn tangled() -> Vec<Ledger> {
    vec![
        ledger("ab", A, B, 700),
        ledger("ba", B, A, 250),
        ledger("bc", B, C, 300),
        ledger("ca", C, A, 120),
        ledger("cd", C, D, 90),
        ledger("da", D, A, 400),
        ledger("bd", B, D, 60),
        ledger("de", D, E, 35),
        ledger("ea", E, A, 80),
        ledger("ec", E, C, 15),
    ]
}

#[test]
fn mutual_debt_is_netted_to_the_difference() {
    let ledgers = vec![ledger("ab", A, B, 500), ledger("ba", B, A, 300)];
    let (left, members, written) = detect_mutual_debt(users(&[A, B]), ledgers).unwrap();
    assert_eq!(rows(&left), vec![row("ab", A, B, 200)]);
    assert_eq!(members.len(), 2);
    assert_eq!(rows(&written), vec![row("ab", A, B, 200), row("ba", B, A, 0)]);
}

#[test]
fn equal_mutual_debt_is_settled_on_both_sides() {
    let ledgers = vec![ledger("ab", A, B, 300), ledger("ba", B, A, 300)];
    let (left, _, written) = detect_mutual_debt(users(&[A, B]), ledgers).unwrap();
    assert!(left.is_empty());
    assert_eq!(rows(&written), vec![row("ab", A, B, 0), row("ba", B, A, 0)]);
}

#[test]
fn debt_in_one_direction_is_left_alone() {
    let ledgers = vec![ledger("ab", A, B, 500), ledger("bc", B, C, 300)];
    let (left, _, written) = detect_mutual_debt(users(&[A, B, C]), ledgers).unwrap();
    assert_eq!(rows(&left), vec![row("ab", A, B, 500), row("bc", B, C, 300)]);
    assert!(written.is_empty());
}

#[test]
fn a_lender_who_owes_nobody_changes_nothing() {
    let ledgers = vec![ledger("ab", A, B, 500)];
    let (left, _, written) = detect_debt(users(&[A, B]), ledgers).unwrap();
    assert_eq!(rows(&left), vec![row("ab", A, B, 500)]);
    assert!(written.is_empty());
}

#[test]
fn a_cycle_of_equal_amounts_is_cancelled_whole() {
    let ledgers = vec![ledger("ab", A, B, 100), ledger("bc", B, C, 100), ledger("ca", C, A, 100)];
    let (left, _, written) = detect_debt_cycles(users(&[A, B, C]), ledgers).unwrap();
    assert!(left.is_empty());
    assert_eq!(
        rows(&written),
        vec![row("ab", A, B, 0), row("bc", B, C, 0), row("ca", C, A, 0)]
    );
}

#[test]
fn a_cycle_is_cancelled_by_its_least_amount() {
    let ledgers = vec![ledger("ab", A, B, 100), ledger("bc", B, C, 40), ledger("ca", C, A, 100)];
    let (left, _, written) = detect_debt_cycles(users(&[A, B, C]), ledgers).unwrap();
    assert_eq!(rows(&left), vec![row("ab", A, B, 60), row("ca", C, A, 60)]);
    assert_eq!(
        rows(&written),
        vec![row("ab", A, B, 60), row("bc", B, C, 0), row("ca", C, A, 60)]
    );
}

#[test]
fn a_cycle_is_found_from_a_later_user_too() {
    let ledgers = vec![ledger("bc", B, C, 70), ledger("cd", C, D, 50), ledger("db", D, B, 90)];
    let (left, _, _) = detect_debt_cycles(users(&[A, B, C, D]), ledgers).unwrap();
    assert_eq!(rows(&left), vec![row("bc", B, C, 20), row("db", D, B, 40)]);
}

#[test]
fn a_chain_that_does_not_close_is_left_alone() {
    let ledgers = vec![ledger("ab", A, B, 100), ledger("bc", B, C, 40), ledger("cd", C, D, 10)];
    let (left, _, written) = detect_debt_cycles(users(&[A, B, C, D]), ledgers).unwrap();
    assert_eq!(
        rows(&left),
        vec![row("ab", A, B, 100), row("bc", B, C, 40), row("cd", C, D, 10)]
    );
    assert!(written.is_empty());
}

#[test]
fn mutual_debt_is_no_cycle_for_the_cycle_resolver() {
    let ledgers = vec![ledger("ab", A, B, 500), ledger("ba", B, A, 300)];
    let (left, _, written) = detect_debt_cycles(users(&[A, B]), ledgers).unwrap();
    assert_eq!(rows(&left), vec![row("ab", A, B, 500), row("ba", B, A, 300)]);
    assert!(written.is_empty());
}

#[test]
fn nothing_to_simplify_gives_the_input_back_and_writes_nothing() {
    let (left, members, written) = detect_debt(users(&[A, B, C]), Vec::new()).unwrap();
    assert!(left.is_empty());
    assert_eq!(members.len(), 3);
    assert_eq!(members[1].user_id, UserId(B));
    assert_eq!(members[1].username, "user22");
    assert!(written.is_empty());
}

#[test]
fn settled_ledgers_are_dropped_and_nothing_is_written() {
    let ledgers = vec![ledger("ab", A, B, 0), ledger("bc", B, C, 0)];
    let (left, _, written) = detect_debt(users(&[A, B, C]), ledgers).unwrap();
    assert!(left.is_empty());
    assert!(written.is_empty());
}

#[test]
fn a_ledger_of_a_party_with_itself_is_ignored() {
    let ledgers = vec![ledger("aa", A, A, 50), ledger("ab", A, B, 30)];
    let (left, _, written) = detect_debt(users(&[A, B]), ledgers).unwrap();
    assert_eq!(rows(&left), vec![row("aa", A, A, 50), row("ab", A, B, 30)]);
    assert!(written.is_empty());
}

#[test]
fn the_full_run_nets_first_and_cancels_then() {
    let ledgers = vec![
        ledger("ab", A, B, 500),
        ledger("ba", B, A, 300),
        ledger("bc", B, C, 150),
        ledger("ca", C, A, 400),
    ];
    let (left, _, written) = detect_debt(users(&[A, B, C]), ledgers).unwrap();
    // netting leaves a->b 200, then the cycle a->b->c->a goes down by 150
    assert_eq!(rows(&left), vec![row("ab", A, B, 50), row("ca", C, A, 250)]);
    assert_eq!(
        rows(&written),
        vec![
            row("ab", A, B, 200),
            row("ba", B, A, 0),
            row("ab", A, B, 50),
            row("bc", B, C, 0),
            row("ca", C, A, 250),
        ]
    );
}

#[test]
fn no_pair_owes_more_after_a_run_and_every_balance_is_kept() {
    let before = tangled();
    let parties = [A, B, C, D, E];
    let (left, _, _) = detect_debt(users(&parties), tangled()).unwrap();
    for x in parties {
        assert_eq!(balance(&left, x), balance(&before, x));
        for y in parties {
            assert!(owed(&left, x, y) <= owed(&before, x, y));
        }
    }
}

#[test]
fn no_amount_is_negative_or_zero_after_a_run() {
    let (left, _, written) = detect_debt(users(&[A, B, C, D, E]), tangled()).unwrap();
    assert!(left.iter().all(|l| l.sum > 0));
    assert!(written.iter().all(|l| l.sum >= 0));
}

#[test]
fn no_two_parties_owe_each_other_after_a_run() {
    let parties = [A, B, C, D, E];
    let (left, _, _) = detect_debt(users(&parties), tangled()).unwrap();
    for x in parties {
        for y in parties {
            assert!(!(has_edge(&left, x, y) && has_edge(&left, y, x)));
        }
    }
}

#[test]
fn no_cycle_is_left_after_a_run() {
    let parties = [A, B, C, D, E];
    assert!(has_cycle(&tangled(), &parties));
    let (left, _, _) = detect_debt(users(&parties), tangled()).unwrap();
    assert!(!has_cycle(&left, &parties));
}

#[test]
fn a_second_run_changes_nothing() {
    let parties = [A, B, C, D, E];
    let (once, members, written) = detect_debt(users(&parties), tangled()).unwrap();
    assert!(!written.is_empty());
    let kept = rows(&once);
    let (twice, _, written_again) = detect_debt(members, once).unwrap();
    assert_eq!(rows(&twice), kept);
    assert!(written_again.is_empty());
}

#[test]
fn a_second_run_changes_nothing_where_strangers_owe_too() {
    // d and e are no users: what they owe is never netted and never cancelled
    let ledgers = vec![
        ledger("ab", A, B, 70),
        ledger("bc", B, C, 50),
        ledger("ca", C, A, 90),
        ledger("ad", A, D, 40),
        ledger("da", D, A, 25),
        ledger("de", D, E, 10),
        ledger("ea", E, A, 10),
        ledger("cb", C, B, 5),
    ];
    let (once, members, written) = detect_debt(users(&[A, B, C]), ledgers).unwrap();
    assert!(!written.is_empty());
    assert_eq!(
        rows(&once),
        vec![
            row("ab", A, B, 25),
            row("ca", C, A, 45),
            row("ad", A, D, 40),
            row("da", D, A, 25),
            row("de", D, E, 10),
            row("ea", E, A, 10),
        ]
    );
    let kept = rows(&once);
    let (twice, _, written_again) = detect_debt(members, once).unwrap();
    assert_eq!(rows(&twice), kept);
    assert!(written_again.is_empty());
}

#[test]
fn replaying_what_was_written_gives_what_is_left() {
    let mut stored = tangled();
    let (left, _, written) = detect_debt(users(&[A, B, C, D, E]), tangled()).unwrap();
    for update in written.iter() {
        let place = stored.iter().position(|l| l.id == update.id).unwrap();
        assert_eq!(stored[place].borrower, update.borrower);
        assert_eq!(stored[place].owes, update.owes);
        stored[place].sum = update.sum;
    }
    stored.retain(|l| l.sum != 0);
    assert_eq!(rows(&stored), rows(&left));
}

#[test]
fn many_cycles_through_one_edge_are_all_cancelled() {
    // every cycle runs through a->b, and each search can cancel one only
    let ledgers = vec![
        ledger("ab", A, B, 1000),
        ledger("bc", B, C, 10),
        ledger("bd", B, D, 20),
        ledger("be", B, E, 30),
        ledger("ca", C, A, 10),
        ledger("da", D, A, 20),
        ledger("ea", E, A, 30),
    ];
    let (left, _, _) = detect_debt(users(&[A, B, C, D, E]), ledgers).unwrap();
    assert_eq!(rows(&left), vec![row("ab", A, B, 940)]);
}

#[test]
fn ledgers_of_strangers_are_left_alone() {
    let ledgers = vec![ledger("de", D, E, 500), ledger("ed", E, D, 300)];
    let (left, _, written) = detect_debt(users(&[A, B]), ledgers).unwrap();
    assert_eq!(rows(&left), vec![row("de", D, E, 500), row("ed", E, D, 300)]);
    assert!(written.is_empty());
}

#[test]
fn of_two_ledgers_for_one_pair_only_the_first_is_netted() {
    let ledgers = vec![ledger("ab", A, B, 50), ledger("ba1", B, A, 20), ledger("ba2", B, A, 70)];
    let (left, _, _) = detect_mutual_debt(users(&[A, B]), ledgers).unwrap();
    // a->b 50 meets b->a 20 and keeps 30; b's turn: the first ledger is settled,
    // the second meets what is left of a->b
    assert_eq!(rows(&left), vec![row("ba2", B, A, 40)]);
}
