use debt_tracker::types::graph::handle_bidirectional_ledgers;
use debt_tracker::types::graph::reduce_ledger;
use debt_tracker::types::graph::DebtError;
use debt_tracker::types::graph::Graph;
use debt_tracker::types::graph::Node;
use debt_tracker::types::ledger::Ledger;
use debt_tracker::types::user::User;
use debt_tracker::types::user::UserId;

fn member(id: u64) -> User {
    User { id: format!("row-{}", id), user_id: UserId(id), username: format!("user{}", id) }
}

fn members(ids: &[u64]) -> Vec<User> {
    ids.iter().map(|id| member(*id)).collect()
}

fn entry(id: &str, borrower: u64, owes: u64, sum: i32) -> Ledger {
    Ledger { id: id.to_string(), borrower: UserId(borrower), owes: UserId(owes), sum }
}

fn sums(ledgers: &[Ledger]) -> Vec<i32> {
    ledgers.iter().map(|l| l.sum).collect()
}

fn triangle() -> Graph {
    Graph::from(
        members(&[1, 2, 3]),
        vec![entry("ab", 1, 2, 100), entry("bc", 2, 3, 40), entry("ca", 3, 1, 100)],
    )
}

#[test]
fn a_new_node_has_no_connections() {
    let node = Node::new(UserId(7), 3);
    assert_eq!(node.id, 3);
    assert_eq!(node.user_id, UserId(7));
    assert!(node.connections.is_empty());
}

#[test]
fn nodes_are_made_for_users_who_owe_on_an_edge() {
    let graph = Graph::from(
        members(&[1, 2, 3, 4]),
        vec![
            entry("ab", 1, 2, 5),
            entry("ac", 1, 3, 0),
            entry("bb", 2, 2, 3),
            entry("ca", 3, 1, 2),
            entry("ad", 1, 4, 9),
            entry("da", 4, 1, -4),
        ],
    );
    assert_eq!(graph.nodes.len(), 2);
    assert_eq!(graph.nodes[0].id, 0);
    assert_eq!(graph.nodes[0].user_id, UserId(1));
    assert_eq!(graph.nodes[0].connections, vec![0, 4]);
    assert_eq!(graph.nodes[1].id, 1);
    assert_eq!(graph.nodes[1].user_id, UserId(3));
    assert_eq!(graph.nodes[1].connections, vec![3]);
    assert_eq!(graph.ledgers.len(), 6);
    assert_eq!(graph.users.len(), 4);
    assert!(graph.updates.is_empty());
}

#[test]
fn a_ledger_of_a_party_with_itself_makes_no_node() {
    let graph = Graph::from(members(&[1]), vec![entry("aa", 1, 1, 50)]);
    assert!(graph.nodes.is_empty());
}

#[test]
fn a_user_who_is_listed_twice_has_one_node() {
    let graph = Graph::from(members(&[1, 1, 2]), vec![entry("ab", 1, 2, 5)]);
    assert_eq!(graph.nodes.len(), 1);
    assert_eq!(graph.nodes[0].user_id, UserId(1));
}

#[test]
fn nodes_are_found_by_handle_and_by_user() {
    let graph = triangle();
    assert_eq!(graph.find_node(2), Some(2));
    assert_eq!(graph.find_node(3), None);
    assert_eq!(graph.find_node_by_user(&UserId(2)), Some(1));
    assert_eq!(graph.find_node_by_user(&UserId(9)), None);
}

#[test]
fn a_node_is_found_by_the_digits_of_its_user() {
    let graph = Graph::from(
        members(&[7, 70, 700]),
        vec![entry("a", 7, 70, 5), entry("b", 70, 700, 5), entry("c", 700, 7, 5)],
    );
    assert_eq!(graph.find_node_by_user_string(&"70".to_string()), Some(1));
    assert_eq!(graph.find_node_by_user_string(&"700".to_string()), Some(2));
    assert_eq!(graph.find_node_by_user_string(&"07".to_string()), None);
    assert_eq!(graph.find_node_by_user_string(&"".to_string()), None);
    assert_eq!(graph.find_node_by_user_string(&"row-7".to_string()), None);
}

#[test]
fn an_edge_is_found_at_its_place_while_it_is_one() {
    let graph = Graph::from(
        members(&[1, 2]),
        vec![entry("ab", 1, 2, 5), entry("ba", 2, 1, 0), entry("aa", 1, 1, 3)],
    );
    let found = graph.edge_at(0).unwrap();
    assert_eq!(found.id, "ab");
    assert_eq!(found.sum, 5);
    assert!(graph.edge_at(1).is_none());
    assert!(graph.edge_at(2).is_none());
    assert!(graph.edge_at(3).is_none());
}

#[test]
fn a_ledger_is_found_by_its_row_id() {
    let graph = Graph::from(
        members(&[1, 2]),
        vec![entry("ab", 1, 2, 5), entry("ba", 2, 1, 0), entry("ab", 2, 1, 7)],
    );
    assert_eq!(graph.find_ledger(&"ab".to_string()), Some(0));
    assert_eq!(graph.find_ledger(&"ba".to_string()), Some(1));
    assert_eq!(graph.find_ledger(&"b".to_string()), None);
    assert_eq!(graph.find_ledger(&"".to_string()), None);
}

#[test]
fn a_ledger_is_found_by_its_two_parties_whatever_it_carries() {
    let graph = Graph::from(
        members(&[1]),
        vec![
            entry("ba", 2, 1, 0),
            entry("ab", 1, 2, 5),
            entry("ba2", 2, 1, 9),
            entry("cc", 3, 3, -4),
        ],
    );
    assert_eq!(graph.find_ledger_by_users(UserId(2), UserId(1)), Some(0));
    assert_eq!(graph.find_ledger_by_users(UserId(1), UserId(2)), Some(1));
    assert_eq!(graph.find_ledger_by_users(UserId(3), UserId(3)), Some(3));
    assert_eq!(graph.find_ledger_by_users(UserId(1), UserId(3)), None);
    assert_eq!(graph.find_ledger_by_users(UserId(9), UserId(1)), None);
}

#[test]
fn an_edge_is_found_by_its_two_parties_through_the_node() {
    let graph = triangle();
    assert_eq!(graph.find_edge(UserId(2), UserId(3)), Some(1));
    assert_eq!(graph.find_edge(UserId(3), UserId(2)), None);
    assert_eq!(graph.find_edge(UserId(9), UserId(1)), None);
    let settled = Graph::from(members(&[1, 2]), vec![entry("ab", 1, 2, 0), entry("ba", 2, 1, 4)]);
    assert_eq!(settled.find_edge(UserId(1), UserId(2)), None);
    assert_eq!(settled.find_ledger_by_users(UserId(1), UserId(2)), Some(0));
}

#[test]
fn a_user_is_found_by_row_id() {
    let graph = triangle();
    assert_eq!(graph.find_user(&"row-2".to_string()), Some(1));
    assert_eq!(graph.find_user(&"row-9".to_string()), None);
}

#[test]
fn an_update_changes_the_amount_and_is_put_down() {
    let mut graph = triangle();
    graph.update_ledger(1, entry("bc", 2, 3, 15));
    assert_eq!(sums(&graph.ledgers), vec![100, 15, 100]);
    assert_eq!(graph.updates.len(), 1);
    assert_eq!(graph.updates[0].id, "bc");
    assert_eq!(graph.updates[0].sum, 15);
}

#[test]
fn resetting_drops_settled_ledgers_and_their_nodes() {
    let mut graph = triangle();
    graph.update_ledger(1, entry("bc", 2, 3, 0));
    graph.reset_nodes();
    assert_eq!(sums(&graph.ledgers), vec![100, 100]);
    assert_eq!(graph.nodes.len(), 2);
    assert_eq!(graph.nodes[1].user_id, UserId(3));
    assert_eq!(graph.nodes[1].connections, vec![1]);
    assert_eq!(graph.updates.len(), 1);
}

#[test]
fn netting_leaves_the_settled_ledger_in_place() {
    let mut graph =
        Graph::from(members(&[1, 2]), vec![entry("ab", 1, 2, 500), entry("ba", 2, 1, 300)]);
    assert_eq!(graph.net_mutual_debt(), Ok(()));
    assert_eq!(sums(&graph.ledgers), vec![200, 0]);
    assert_eq!(sums(&graph.updates), vec![200, 0]);
    assert_eq!(graph.nodes.len(), 2);
}

#[test]
fn the_resolver_of_mutual_debt_drops_the_settled_ledger() {
    let mut graph =
        Graph::from(members(&[1, 2]), vec![entry("ab", 1, 2, 500), entry("ba", 2, 1, 300)]);
    assert_eq!(graph.resolve_bidirectional_debt(), Ok(()));
    assert_eq!(sums(&graph.ledgers), vec![200]);
    assert_eq!(sums(&graph.updates), vec![200, 0]);
    assert_eq!(graph.nodes.len(), 1);
    assert_eq!(graph.nodes[0].connections, vec![0]);
}

#[test]
fn a_cancellation_drops_the_settled_ledgers_at_once() {
    let mut graph = triangle();
    assert_eq!(graph.cancel_cyclic_debt(), Ok(()));
    assert_eq!(sums(&graph.ledgers), vec![60, 60]);
    assert_eq!(sums(&graph.updates), vec![60, 0, 60]);
    assert_eq!(graph.nodes.len(), 2);
    assert_eq!(graph.nodes[0].connections, vec![0]);
    assert_eq!(graph.nodes[1].user_id, UserId(3));
    assert_eq!(graph.nodes[1].connections, vec![1]);
}

#[test]
fn a_ring_of_equal_amounts_leaves_no_ledger_and_no_node() {
    let mut graph = Graph::from(
        members(&[1, 2, 3]),
        vec![entry("l1", 1, 2, 100), entry("l2", 2, 3, 100), entry("l3", 3, 1, 100)],
    );
    assert_eq!(graph.cancel_cyclic_debt(), Ok(()));
    assert!(graph.ledgers.is_empty());
    assert!(graph.nodes.is_empty());
    let written: Vec<(&str, i32)> = graph.updates.iter().map(|l| (l.id.as_str(), l.sum)).collect();
    assert_eq!(written, vec![("l1", 0), ("l2", 0), ("l3", 0)]);
}

#[test]
fn where_no_chain_closes_the_ledgers_stay_as_they_are() {
    let mut graph = Graph::from(
        members(&[1, 2, 3]),
        vec![entry("ab", 1, 2, 10), entry("bc", 2, 3, 0), entry("ac", 1, 3, 10)],
    );
    assert_eq!(graph.cancel_cyclic_debt(), Ok(()));
    assert_eq!(sums(&graph.ledgers), vec![10, 0, 10]);
    assert!(graph.updates.is_empty());
}

#[test]
fn the_nodes_stand_in_the_order_of_the_users() {
    let ledgers = vec![entry("ab", 1, 2, 5), entry("ca", 3, 1, 2), entry("bc", 2, 3, 7)];
    let graph = Graph::from(members(&[3, 1, 3, 2]), ledgers);
    let parties: Vec<u64> = graph.nodes.iter().map(|n| n.user_id.0).collect();
    assert_eq!(parties, vec![3, 1, 2]);
    let handles: Vec<usize> = graph.nodes.iter().map(|n| n.id).collect();
    assert_eq!(handles, vec![0, 1, 2]);
    assert_eq!(graph.nodes[0].connections, vec![1]);
    assert_eq!(graph.nodes[1].connections, vec![0]);
    assert_eq!(graph.nodes[2].connections, vec![2]);
}

#[test]
fn a_second_reset_changes_nothing() {
    let mut graph = Graph::from(
        members(&[2, 1]),
        vec![entry("ab", 1, 2, 5), entry("ba", 2, 1, 0), entry("bc", 2, 3, 7)],
    );
    graph.reset_nodes();
    let ledgers = sums(&graph.ledgers);
    let nodes: Vec<(usize, u64, Vec<usize>)> =
        graph.nodes.iter().map(|n| (n.id, n.user_id.0, n.connections.clone())).collect();
    assert_eq!(nodes, vec![(0, 2, vec![1]), (1, 1, vec![0])]);
    graph.reset_nodes();
    assert_eq!(sums(&graph.ledgers), ledgers);
    let again: Vec<(usize, u64, Vec<usize>)> =
        graph.nodes.iter().map(|n| (n.id, n.user_id.0, n.connections.clone())).collect();
    assert_eq!(again, nodes);
}

#[test]
fn netting_at_one_node_leaves_the_ledgers_of_the_others_alone() {
    let mut graph = Graph::from(
        members(&[1, 2, 3]),
        vec![
            entry("ab", 1, 2, 50),
            entry("ba", 2, 1, 20),
            entry("bc", 2, 3, 9),
            entry("cb", 3, 2, 4),
        ],
    );
    assert_eq!(graph.net_mutual_debt(), Ok(()));
    assert_eq!(sums(&graph.ledgers), vec![30, 0, 5, 0]);
    assert_eq!(sums(&graph.updates), vec![30, 0, 5, 0]);
}

#[test]
fn the_resolver_of_circular_debt_drops_the_settled_ledger() {
    let mut graph = triangle();
    assert_eq!(graph.resolve_cyclic_debt(), Ok(()));
    assert_eq!(sums(&graph.ledgers), vec![60, 60]);
    assert_eq!(sums(&graph.updates), vec![60, 0, 60]);
    assert_eq!(graph.nodes.len(), 2);
    assert_eq!(graph.nodes[1].connections, vec![1]);
}

#[test]
fn the_search_tells_the_cycle_in_order() {
    let graph = triangle();
    assert_eq!(graph.find_cycle(0), Some(vec![0, 1, 2]));
    assert_eq!(graph.find_cycle(1), Some(vec![1, 2, 0]));
    assert_eq!(graph.find_cycle(2), Some(vec![2, 0, 1]));
}

#[test]
fn the_search_goes_past_a_branch_that_leads_nowhere() {
    let graph = Graph::from(
        members(&[1, 2, 3, 4, 5]),
        vec![
            entry("ab", 1, 2, 10),
            entry("ac", 1, 3, 10),
            entry("cd", 3, 4, 10),
            entry("be", 2, 5, 10),
            entry("ea", 5, 1, 10),
        ],
    );
    // c is expanded first and leads to d, who owes nobody
    assert_eq!(graph.find_cycle(0), Some(vec![0, 3, 4]));
}

#[test]
fn the_search_closes_a_chain_as_soon_as_a_neighbour_owes_the_start() {
    let graph = Graph::from(
        members(&[1, 2, 3, 4]),
        vec![
            entry("ab", 1, 2, 10),
            entry("bc", 2, 3, 10),
            entry("cd", 3, 4, 10),
            entry("da", 4, 1, 10),
            entry("bd", 2, 4, 10),
        ],
    );
    // from b the search looks at c first, who does not owe a, and then at d, who does
    assert_eq!(graph.find_cycle(0), Some(vec![0, 4, 3]));
}

#[test]
fn the_search_finds_nothing_where_no_chain_closes() {
    let graph = Graph::from(
        members(&[1, 2, 3]),
        vec![entry("ab", 1, 2, 10), entry("bc", 2, 3, 10), entry("ac", 1, 3, 10)],
    );
    assert_eq!(graph.find_cycle(0), None);
    assert_eq!(graph.find_cycle(1), None);
}

#[test]
fn the_search_tells_a_mutual_debt_as_a_chain_of_two() {
    let graph =
        Graph::from(members(&[1, 2]), vec![entry("ab", 1, 2, 10), entry("ba", 2, 1, 10)]);
    assert_eq!(graph.find_cycle(0), Some(vec![0, 1]));
}

#[test]
fn a_cycle_is_cancelled_by_the_least_of_its_amounts() {
    let mut graph = triangle();
    assert_eq!(graph.handle_cyclic_debt(&vec![0, 1, 2]), Ok(()));
    assert_eq!(sums(&graph.ledgers), vec![60, 0, 60]);
    assert_eq!(sums(&graph.updates), vec![60, 0, 60]);
}

#[test]
fn two_opposite_ledgers_go_down_by_the_smaller_amount() {
    let (l1, l2) =
        handle_bidirectional_ledgers(entry("ab", 1, 2, 500), entry("ba", 2, 1, 300)).unwrap();
    assert_eq!((l1.id.as_str(), l1.sum), ("ab", 200));
    assert_eq!((l2.id.as_str(), l2.sum), ("ba", 0));
    let (l1, l2) =
        handle_bidirectional_ledgers(entry("ab", 1, 2, 30), entry("ba", 2, 1, 70)).unwrap();
    assert_eq!((l1.sum, l2.sum), (0, 40));
}

#[test]
fn ledgers_that_do_not_oppose_each_other_are_refused() {
    let refused = handle_bidirectional_ledgers(entry("ab", 1, 2, 500), entry("bc", 2, 3, 300));
    assert_eq!(refused.unwrap_err(), DebtError::InvariantViolation);
    let refused = handle_bidirectional_ledgers(entry("ab", 1, 2, 500), entry("ab2", 1, 2, 300));
    assert_eq!(refused.unwrap_err(), DebtError::InvariantViolation);
    assert_eq!(DebtError::InvariantViolation.message(), "ledgers not bidirectioal");
}

#[test]
fn a_ledger_is_reduced_by_the_amount() {
    let reduced = reduce_ledger(entry("ab", 1, 2, 500), 120);
    assert_eq!(reduced.sum, 380);
    assert_eq!(reduced.id, "ab");
    assert_eq!(reduced.borrower, UserId(1));
    assert_eq!(reduced.owes, UserId(2));
    assert_eq!(reduce_ledger(entry("ab", 1, 2, 500), 500).sum, 0);
}

#[test]
fn a_copy_of_a_ledger_is_the_ledger() {
    let ledger = entry("ab", 1, 2, 500);
    let copy = ledger.copy();
    assert_eq!(copy.id, ledger.id);
    assert_eq!(copy.borrower, ledger.borrower);
    assert_eq!(copy.owes, ledger.owes);
    assert_eq!(copy.sum, ledger.sum);
}
