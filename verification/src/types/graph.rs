use vstd::prelude::*;
use crate::types::balance::comes_from;
use crate::types::balance::conserves;
use crate::types::balance::descends;
use crate::types::balance::has_origin;
use crate::types::balance::lemma_conserves_trans;
use crate::types::balance::lemma_descends_next;
use crate::types::balance::lemma_pruned_twice;
use crate::types::balance::lemma_settled_and_pruned;
use crate::types::balance::no_negative;
use crate::types::balance::nonzero;
use crate::types::balance::pruned;
use crate::types::balance::reduces;
use crate::types::balance::settles;
use crate::types::codec::decimal;
use crate::types::cycle::cancel;
use crate::types::cycle::cancelled;
use crate::types::cycle::cancelling;
use crate::types::cycle::cancels;
use crate::types::cycle::cycles_rest_on_mutual_debt;
use crate::types::cycle::edge_count;
use crate::types::cycle::in_member_mutual_debt;
use crate::types::cycle::in_mutual_debt;
use crate::types::cycle::is_cycle;
use crate::types::cycle::least;
use crate::types::cycle::lemma_cancelling_begins;
use crate::types::cycle::lemma_cancelling_done;
use crate::types::cycle::lemma_cancelling_next;
use crate::types::cycle::lemma_cancels_begins;
use crate::types::cycle::lemma_cancels_next;
use crate::types::cycle::lemma_edge_count_pruned;
use crate::types::cycle::lemma_members_are_all_cycles;
use crate::types::cycle::lemma_no_member_rest;
use crate::types::cycle::lemma_no_rest;
use crate::types::cycle::lemma_short_member_cycle;
use crate::types::cycle::member_cycle;
use crate::types::cycle::member_cycles_rest;
use crate::types::cycle::no_cycle_from;
use crate::types::cycle::no_cyclic_debt;
use crate::types::cycle::no_member_cycle_from;
use crate::types::cycle::no_member_cyclic_debt;
use crate::types::ledger::Ledger;
use crate::types::netting::lemma_all_member_settled;
use crate::types::netting::lemma_all_unopposed;
use crate::types::netting::lemma_descends_stable;
use crate::types::netting::lemma_edge_was_edge;
use crate::types::netting::lemma_member_debt_stable;
use crate::types::netting::lemma_member_settled_stable;
use crate::types::netting::lemma_members_are_all;
use crate::types::netting::lemma_net_step;
use crate::types::netting::lemma_nets_begins;
use crate::types::netting::lemma_nets_next;
use crate::types::netting::lemma_well_formed_stable;
use crate::types::netting::member_edge;
use crate::types::netting::members_only;
use crate::types::netting::min;
use crate::types::netting::net;
use crate::types::netting::nets;
use crate::types::netting::no_member_mutual_debt;
use crate::types::netting::no_mutual_debt;
use crate::types::netting::one_edge_per_pair;
use crate::types::netting::opposed_by_member;
use crate::types::netting::pairs_in_step;
use crate::types::netting::pairs_netted;
use crate::types::netting::settled_among_members;
use crate::types::netting::unopposed;
use crate::types::netting::unopposed_kept;
use crate::types::netting::well_formed;
use crate::types::update::lemma_replay_push;
use crate::types::update::lemma_unique_ids_stable;
use crate::types::update::replay;
use crate::types::update::unique_ids;
use crate::types::user::User;
use crate::types::user::UserId;

verus! {

/// What can go wrong while debts are simplified.
#[derive(Debug, Clone, Copy, PartialEq, Eq, Structural)]
pub enum DebtError {
    /// Two ledgers that were to be netted do not run against each other.
    InvariantViolation,
}

impl DebtError {
    /// The error in words.
    pub fn message(&self) -> (text: String)
        ensures
            text@ == "ledgers not bidirectioal"@,
    {
        match self {
            DebtError::InvariantViolation => "ledgers not bidirectioal".to_string(),
        }
    }
}

/// What holds after any number of nettings that began on the ledgers `start`,
/// when the ledgers are `cur` and `written` has been put down for the store:
/// the ledgers are a settlement of `start`, only ledgers with an edge against
/// them have changed, of two edges that ran against each other both or neither
/// have gone down, replaying what was written gives the ledgers, and nothing
/// was written where nobody owed each other. Every change is the netting of
/// two edges that ran against each other, and no amount that was written is
/// negative.
pub open spec fn netting_pass(start: Seq<Ledger>, cur: Seq<Ledger>, written: Seq<Ledger>) -> bool {
    &&& nets(start, cur, written)
    &&& settles(start, cur)
    &&& unopposed_kept(start, cur)
    &&& one_edge_per_pair(start) ==> pairs_in_step(start, cur)
    &&& unique_ids(start) ==> cur == replay(start, written)
    &&& no_mutual_debt(start) ==> written.len() == 0
    &&& no_negative(written)
}

/// Nettings are made between users only: where no two users owed each
/// other, nothing has changed and nothing was written.
pub open spec fn netting_among_members(
    users: Seq<User>,
    start: Seq<Ledger>,
    cur: Seq<Ledger>,
    written: Seq<Ledger>,
) -> bool {
    no_member_mutual_debt(users, start) ==> written.len() == 0 && cur == start
}

/// What holds after any number of cancellations that began on the ledgers
/// `start`, when the ledgers are `cur` and `written` has been put down for
/// the store. Every change is the cancellation of a closed chain of debt
/// through more than two parties, after which the settled ledgers are
/// dropped. No two parties owe each other more than before, every balance
/// is kept, every ledger comes from a ledger of `start`, nothing has
/// changed or was written where there was no such chain, and no amount that
/// was written is negative.
#[verifier::opaque]
pub open spec fn cycle_pass(start: Seq<Ledger>, cur: Seq<Ledger>, written: Seq<Ledger>) -> bool {
    &&& cancels(start, cur, written)
    &&& conserves(start, cur)
    &&& descends(start, cur)
    &&& cur.len() <= start.len()
    &&& no_cyclic_debt(start) ==> written.len() == 0 && cur == start
    &&& no_negative(written)
}

/// Before anything is cancelled, nothing has changed and nothing is written.
pub proof fn lemma_cycle_pass_begins(ledgers: Seq<Ledger>)
    ensures
        cycle_pass(ledgers, ledgers, Seq::<Ledger>::empty()),
{
    reveal(cycle_pass);
    lemma_cancels_begins(ledgers);
    assert forall|k: int| 0 <= k < ledgers.len() implies has_origin(
        ledgers,
        #[trigger] ledgers[k],
    ) by {
        assert(comes_from(ledgers[k], ledgers[k]));
    }
}

/// Cancellations are made among users only: where no closed chain of debt
/// among users ran through three parties or more, nothing has changed and
/// nothing was written.
pub open spec fn cancelling_among_members(
    users: Seq<User>,
    start: Seq<Ledger>,
    cur: Seq<Ledger>,
    written: Seq<Ledger>,
) -> bool {
    no_member_cyclic_debt(users, start) ==> written.len() == 0 && cur == start
}

/// One more cancellation, and the dropping of the settled ledgers after it,
/// keeps what a run of cancellations keeps.
pub proof fn lemma_cycle_pass_next(
    start: Seq<Ledger>,
    cur: Seq<Ledger>,
    written: Seq<Ledger>,
    trail: Seq<usize>,
    next: Seq<Ledger>,
    fresh: Seq<Ledger>,
)
    requires
        cycle_pass(start, cur, written),
        is_cycle(cur, trail),
        trail.len() > 2,
        cancelled(cur, next, trail),
        settles(cur, next),
        fresh.len() == trail.len(),
        forall|d: int| 0 <= d < trail.len() ==> #[trigger] fresh[d] == next[trail[d] as int],
    ensures
        cycle_pass(start, pruned(next), written + fresh),
        edge_count(pruned(next)) == edge_count(next),
        pruned(pruned(next)) == pruned(next),
        no_cyclic_debt(start) ==> cur == start,
        descends(start, cur),
{
    reveal(cycle_pass);
    assert forall|d: int| 0 <= d < fresh.len() implies (#[trigger] fresh[d]).sum >= 0 by {
        let e = trail[d] as int;
        assert(cur[e].is_edge());
        assert(next[e].id == cur[e].id);
    }
    lemma_cancels_next(start, cur, written, trail, next, fresh);
    lemma_settled_and_pruned(cur, next);
    lemma_conserves_trans(start, cur, pruned(next));
    lemma_descends_next(start, cur, next);
    next.lemma_filter_len(nonzero());
    lemma_edge_count_pruned(next);
    lemma_pruned_twice(next);
}

/// `after` is what netting the mutual debt of `before` leaves, and `written`
/// is what it puts down for the store. There are ledgers `mid`, the ledgers
/// of `before` with their amounts after the netting, of which `after` keeps
/// those that still carry an amount. Where the ledgers are as the store has
/// to uphold them, nobody owes each other in `mid`, and every two edges that
/// ran against each other have gone down by the smaller of their amounts.
pub open spec fn mutual_debt_resolved(
    users: Seq<User>,
    before: Seq<Ledger>,
    after: Seq<Ledger>,
    written: Seq<Ledger>,
) -> bool {
    exists|mid: Seq<Ledger>|
        {
            &&& #[trigger] netting_pass(before, mid, written)
            &&& after == pruned(mid)
            &&& netting_among_members(users, before, mid, written)
            &&& one_edge_per_pair(before) ==> no_member_mutual_debt(users, mid)
            &&& well_formed(users, before) ==> no_mutual_debt(mid) && pairs_netted(before, mid)
        }
}

/// `after` is what cancelling the circular debt of `before` leaves, and
/// `written` is what it puts down for the store. There are ledgers `last`,
/// which a run of cancellations leaves, and of which `after` keeps those
/// that carry an amount. Where every borrower is a member, a closed chain of
/// debt begins in `last` only at a party that stands in a mutual debt; where
/// nobody owes each other besides, no closed chain is left at all.
pub open spec fn cyclic_debt_resolved(
    users: Seq<User>,
    before: Seq<Ledger>,
    after: Seq<Ledger>,
    written: Seq<Ledger>,
) -> bool {
    exists|last: Seq<Ledger>|
        {
            &&& #[trigger] cycle_pass(before, last, written)
            &&& after == pruned(last)
            &&& cancelling_among_members(users, before, last, written)
            &&& member_cycles_rest(users, last)
            &&& no_member_mutual_debt(users, before) ==> no_member_cyclic_debt(users, last)
            &&& members_only(users, before) ==> cycles_rest_on_mutual_debt(last)
            &&& members_only(users, before) && no_mutual_debt(before) ==> no_cyclic_debt(last)
        }
}

/// How many of `nodes` nodes, or of `users` users if these are more, are
/// left after the first `k`.
pub open spec fn left(nodes: nat, users: nat, k: nat) -> nat {
    let most = if nodes <= users {
        users
    } else {
        nodes
    };
    if k < most {
        (most - k) as nat
    } else {
        0
    }
}

/// One party that owes on at least one edge, for the length of one pass.
#[derive(Debug)]
pub struct Node {
    /// The handle of the node: its place among the nodes of the graph.
    pub id: usize,
    pub user_id: UserId,
    /// The places, among the ledgers of the graph, of the ledgers on which
    /// this party is the borrower.
    pub connections: Vec<usize>,
}

impl Node {
    pub fn new(user_id: UserId, id: usize) -> (node: Node)
        ensures
            node.id == id,
            node.user_id == user_id,
            node.connections@ == Seq::<usize>::empty(),
    {
        Node { id, user_id, connections: Vec::new() }
    }
}

/// The ledgers and users of one group, the nodes derived from them, and the
/// ledgers whose new amounts wait to be stored, oldest first.
pub struct Graph {
    pub ledgers: Vec<Ledger>,
    pub users: Vec<User>,
    pub nodes: Vec<Node>,
    pub updates: Vec<Ledger>,
}

/// The places of the edges on which `x` owes, in the order of the ledgers.
pub open spec fn edges_of(ledgers: Seq<Ledger>, x: UserId) -> Seq<usize>
    decreases ledgers.len(),
{
    if ledgers.len() == 0 {
        Seq::empty()
    } else {
        let rest = edges_of(ledgers.drop_last(), x);
        if ledgers.last().is_edge() && ledgers.last().borrower == x {
            rest.push((ledgers.len() - 1) as usize)
        } else {
            rest
        }
    }
}

/// The parties that get a node, in the order of the users: every user who
/// owes on an edge, once, where the user first stands among the users.
pub open spec fn parties_of(users: Seq<User>, ledgers: Seq<Ledger>) -> Seq<UserId>
    decreases users.len(),
{
    if users.len() == 0 {
        Seq::empty()
    } else {
        let rest = parties_of(users.drop_last(), ledgers);
        let x = users.last().user_id;
        if rest.contains(x) || edges_of(ledgers, x).len() == 0 {
            rest
        } else {
            rest.push(x)
        }
    }
}

/// `x` is one of the users.
pub open spec fn known(users: Seq<User>, x: UserId) -> bool {
    exists|u: int| 0 <= u < users.len() && (#[trigger] users[u]).user_id == x
}

impl Graph {
    /// Some node stands for the party `x`.
    pub open spec fn has_node(&self, x: UserId) -> bool {
        exists|k: int| 0 <= k < self.nodes@.len() && (#[trigger] self.nodes@[k]).user_id == x
    }

    /// The nodes fit the ledgers. Handles are places, no party has two nodes,
    /// a connection of a node is the place of a ledger of its party, every
    /// edge of a party that has a node is among that node's connections,
    /// every user who owes on an edge has a node, and every node stands for
    /// a user.
    ///
    /// This keeps holding while amounts go down: a connection may then lead
    /// to a ledger that is an edge no longer.
    #[verifier::opaque]
    pub open spec fn wf(&self) -> bool {
        &&& self.ledgers@.len() <= usize::MAX
        &&& forall|k: int| 0 <= k < self.nodes@.len() ==> (#[trigger] self.nodes@[k]).id == k
        &&& forall|k: int, m: int|
            0 <= k < m < self.nodes@.len() ==> (#[trigger] self.nodes@[k]).user_id != (
            #[trigger] self.nodes@[m]).user_id
        &&& forall|k: int, j: int|
            0 <= k < self.nodes@.len() && 0 <= j < self.nodes@[k].connections@.len() ==> {
                let c = #[trigger] self.nodes@[k].connections@[j];
                c < self.ledgers@.len() && self.ledgers@[c as int].borrower
                    == self.nodes@[k].user_id
            }
        &&& forall|k: int, i: int|
            0 <= k < self.nodes@.len() && 0 <= i < self.ledgers@.len() && (
            #[trigger] self.ledgers@[i]).is_edge() && self.ledgers@[i].borrower == (
            #[trigger] self.nodes@[k]).user_id ==> self.nodes@[k].connections@.contains(
                i as usize,
            )
        &&& forall|i: int|
            0 <= i < self.ledgers@.len() && (#[trigger] self.ledgers@[i]).is_edge() && known(
                self.users@,
                self.ledgers@[i].borrower,
            ) ==> self.has_node(self.ledgers@[i].borrower)
        &&& forall|k: int|
            0 <= k < self.nodes@.len() ==> known(self.users@, (#[trigger] self.nodes@[k]).user_id)
    }

    /// The nodes are exactly what the users and the ledgers call for: one
    /// node for each party of `parties_of`, in that order, with its place for
    /// a handle and the places of the edges on which it owes for connections.
    pub open spec fn is_fresh(&self) -> bool {
        let parties = parties_of(self.users@, self.ledgers@);
        &&& self.nodes@.len() == parties.len()
        &&& forall|k: int|
            0 <= k < self.nodes@.len() ==> {
                &&& (#[trigger] self.nodes@[k]).id == k
                &&& self.nodes@[k].user_id == parties[k]
                &&& self.nodes@[k].connections@ == edges_of(self.ledgers@, parties[k])
            }
    }

    /// Users and ledgers call for one list of nodes only: two graphs with the
    /// same users and ledgers whose nodes are fresh have the same nodes, in
    /// the same order and with the same connections.
    pub proof fn lemma_fresh_is_one(&self, other: Graph)
        requires
            self.is_fresh(),
            other.is_fresh(),
            self.users@ == other.users@,
            self.ledgers@ == other.ledgers@,
        ensures
            self.nodes@.len() == other.nodes@.len(),
            forall|k: int|
                0 <= k < self.nodes@.len() ==> {
                    &&& (#[trigger] self.nodes@[k]).id == other.nodes@[k].id
                    &&& self.nodes@[k].user_id == other.nodes@[k].user_id
                    &&& self.nodes@[k].connections@ == other.nodes@[k].connections@
                },
    {
        assert forall|k: int| 0 <= k < self.nodes@.len() implies {
            &&& (#[trigger] self.nodes@[k]).id == other.nodes@[k].id
            &&& self.nodes@[k].user_id == other.nodes@[k].user_id
            &&& self.nodes@[k].connections@ == other.nodes@[k].connections@
        } by {
            let _ = other.nodes@[k];
        }
    }

    /// The node with the handle `id`, if there is one.
    pub fn find_node(&self, id: usize) -> (found: Option<usize>)
        ensures
            match found {
                Some(k) => k < self.nodes@.len() && self.nodes@[k as int].id == id
                    && forall|m: int| 0 <= m < k ==> (#[trigger] self.nodes@[m]).id != id,
                None => forall|m: int|
                    0 <= m < self.nodes@.len() ==> (#[trigger] self.nodes@[m]).id != id,
            },
    {
        let mut k: usize = 0;
        while k < self.nodes.len()
            invariant
                k <= self.nodes@.len(),
                forall|m: int| 0 <= m < k ==> (#[trigger] self.nodes@[m]).id != id,
            decreases self.nodes@.len() - k,
        {
            if self.nodes[k].id == id {
                return Some(k);
            }
            k += 1;
        }
        None
    }

    /// The first node that stands for the party `user_id`, if there is one.
    pub fn find_node_by_user(&self, user_id: &UserId) -> (found: Option<usize>)
        ensures
            match found {
                Some(k) => k < self.nodes@.len() && self.nodes@[k as int].user_id == *user_id
                    && forall|m: int|
                    0 <= m < k ==> (#[trigger] self.nodes@[m]).user_id != *user_id,
                None => !self.has_node(*user_id),
            },
    {
        let mut k: usize = 0;
        while k < self.nodes.len()
            invariant
                k <= self.nodes@.len(),
                forall|m: int| 0 <= m < k ==> (#[trigger] self.nodes@[m]).user_id != *user_id,
            decreases self.nodes@.len() - k,
        {
            if self.nodes[k].user_id == *user_id {
                return Some(k);
            }
            k += 1;
        }
        None
    }

    /// The first node that stands for the party whose identifier, written in
    /// decimal digits, is `user_id`, if there is one.
    pub fn find_node_by_user_string(&self, user_id: &String) -> (found: Option<usize>)
        ensures
            match found {
                Some(k) => k < self.nodes@.len() && decimal(self.nodes@[k as int].user_id.0 as nat)
                    == user_id@ && forall|m: int|
                    0 <= m < k ==> decimal((#[trigger] self.nodes@[m]).user_id.0 as nat)
                        != user_id@,
                None => forall|m: int|
                    0 <= m < self.nodes@.len() ==> decimal(
                        (#[trigger] self.nodes@[m]).user_id.0 as nat,
                    ) != user_id@,
            },
    {
        let mut k: usize = 0;
        while k < self.nodes.len()
            invariant
                k <= self.nodes@.len(),
                forall|m: int|
                    0 <= m < k ==> decimal((#[trigger] self.nodes@[m]).user_id.0 as nat)
                        != user_id@,
            decreases self.nodes@.len() - k,
        {
            if self.nodes[k].user_id.to_string() == *user_id {
                return Some(k);
            }
            k += 1;
        }
        None
    }

    /// The first ledger with the row id `id`, if there is one.
    pub fn find_ledger(&self, id: &String) -> (found: Option<usize>)
        ensures
            match found {
                Some(i) => i < self.ledgers@.len() && self.ledgers@[i as int].id@ == id@
                    && forall|m: int| 0 <= m < i ==> (#[trigger] self.ledgers@[m]).id@ != id@,
                None => forall|m: int|
                    0 <= m < self.ledgers@.len() ==> (#[trigger] self.ledgers@[m]).id@ != id@,
            },
    {
        let mut i: usize = 0;
        while i < self.ledgers.len()
            invariant
                i <= self.ledgers@.len(),
                forall|m: int| 0 <= m < i ==> (#[trigger] self.ledgers@[m]).id@ != id@,
            decreases self.ledgers@.len() - i,
        {
            if self.ledgers[i].id == *id {
                return Some(i);
            }
            i += 1;
        }
        None
    }

    /// The first ledger on which `borrower` owes `owes`, whatever amount it
    /// carries, if there is one.
    pub fn find_ledger_by_users(&self, borrower: UserId, owes: UserId) -> (found: Option<usize>)
        ensures
            match found {
                Some(i) => i < self.ledgers@.len() && self.ledgers@[i as int].borrower == borrower
                    && self.ledgers@[i as int].owes == owes && forall|m: int|
                    0 <= m < i ==> !((#[trigger] self.ledgers@[m]).borrower == borrower
                        && self.ledgers@[m].owes == owes),
                None => forall|m: int|
                    0 <= m < self.ledgers@.len() ==> !((#[trigger] self.ledgers@[m]).borrower
                        == borrower && self.ledgers@[m].owes == owes),
            },
    {
        let mut i: usize = 0;
        while i < self.ledgers.len()
            invariant
                i <= self.ledgers@.len(),
                forall|m: int|
                    0 <= m < i ==> !((#[trigger] self.ledgers@[m]).borrower == borrower
                        && self.ledgers@[m].owes == owes),
            decreases self.ledgers@.len() - i,
        {
            if self.ledgers[i].borrower == borrower && self.ledgers[i].owes == owes {
                return Some(i);
            }
            i += 1;
        }
        None
    }

    /// The ledger at the place `index`, if it is an edge. A ledger that has
    /// been settled is not found.
    pub fn edge_at(&self, index: usize) -> (found: Option<Ledger>)
        ensures
            found == if index < self.ledgers@.len() && self.ledgers@[index as int].is_edge() {
                Some(self.ledgers@[index as int])
            } else {
                None
            },
    {
        if index < self.ledgers.len() {
            let ledger = &self.ledgers[index];
            if ledger.sum > 0 && ledger.borrower != ledger.owes {
                return Some(ledger.copy());
            }
        }
        None
    }

    /// The first user whose row id is `id`, if there is one.
    pub fn find_user(&self, id: &String) -> (found: Option<usize>)
        ensures
            match found {
                Some(u) => u < self.users@.len() && self.users@[u as int].id@ == id@
                    && forall|m: int| 0 <= m < u ==> (#[trigger] self.users@[m]).id@ != id@,
                None => forall|m: int|
                    0 <= m < self.users@.len() ==> (#[trigger] self.users@[m]).id@ != id@,
            },
    {
        let mut u: usize = 0;
        while u < self.users.len()
            invariant
                u <= self.users@.len(),
                forall|m: int| 0 <= m < u ==> (#[trigger] self.users@[m]).id@ != id@,
            decreases self.users@.len() - u,
        {
            if self.users[u].id == *id {
                return Some(u);
            }
            u += 1;
        }
        None
    }

    /// An edge from `borrower` to `owes`, looked for among the connections of
    /// the node of `borrower`.
    pub fn find_edge(&self, borrower: UserId, owes: UserId) -> (found: Option<usize>)
        requires
            self.wf(),
        ensures
            match found {
                Some(i) => i < self.ledgers@.len() && self.ledgers@[i as int].is_edge()
                    && self.ledgers@[i as int].borrower == borrower && self.ledgers@[i as int].owes
                    == owes && self.has_node(borrower),
                None => self.has_node(borrower) ==> forall|i: int|
                    0 <= i < self.ledgers@.len() && (#[trigger] self.ledgers@[i]).is_edge()
                        && self.ledgers@[i].borrower == borrower ==> self.ledgers@[i].owes != owes,
            },
    {
        let k = match self.find_node_by_user(&borrower) {
            Some(k) => k,
            None => return None,
        };
        let mut j: usize = 0;
        while j < self.nodes[k].connections.len()
            invariant
                self.wf(),
                k < self.nodes@.len(),
                self.nodes@[k as int].user_id == borrower,
                j <= self.nodes@[k as int].connections@.len(),
                forall|m: int|
                    0 <= m < j ==> {
                        let c = #[trigger] self.nodes@[k as int].connections@[m];
                        !(self.ledgers@[c as int].is_edge() && self.ledgers@[c as int].owes == owes)
                    },
            decreases self.nodes@[k as int].connections@.len() - j,
        {
            let c = self.nodes[k].connections[j];
            assert(c < self.ledgers@.len() && self.ledgers@[c as int].borrower == borrower) by {
                reveal(Graph::wf);
            }
            let ledger = &self.ledgers[c];
            if ledger.sum > 0 && ledger.borrower != ledger.owes && ledger.owes == owes {
                return Some(c);
            }
            j += 1;
        }
        proof {
            assert forall|i: int|
                0 <= i < self.ledgers@.len() && (#[trigger] self.ledgers@[i]).is_edge()
                    && self.ledgers@[i].borrower == borrower implies self.ledgers@[i].owes
                != owes by {
                let node = self.nodes@[k as int];
                assert(node.user_id == self.ledgers@[i].borrower);
                assert(node.connections@.contains(i as usize) && self.ledgers@.len() <= usize::MAX) by {
                    reveal(Graph::wf);
                }
                let m = choose|m: int|
                    0 <= m < node.connections@.len() && node.connections@[m] == i as usize;
                assert(self.nodes@[k as int].connections@[m] == i as usize);
            }
        }
        None
    }

    /// Gives the ledger at `index` the amount of `ledger` and puts `ledger`
    /// down for the store.
    pub fn update_ledger(&mut self, index: usize, ledger: Ledger)
        requires
            index < old(self).ledgers@.len(),
        ensures
            final(self).ledgers@ == old(self).ledgers@.update(
                index as int,
                old(self).ledgers@[index as int].with_sum(ledger.sum as int),
            ),
            final(self).updates@ == old(self).updates@.push(ledger),
            final(self).users == old(self).users,
            final(self).nodes == old(self).nodes,
    {
        self.ledgers[index].sum = ledger.sum;
        self.updates.push(ledger);
    }

    /// The nodes still fit the ledgers after amounts have gone down.
    pub proof fn lemma_wf_stable(&self, before: Graph)
        requires
            before.wf(),
            self.nodes == before.nodes,
            self.users == before.users,
            reduces(before.ledgers@, self.ledgers@),
        ensures
            self.wf(),
    {
        reveal(Graph::wf);
        assert forall|k: int, i: int|
            0 <= k < self.nodes@.len() && 0 <= i < self.ledgers@.len() && (
            #[trigger] self.ledgers@[i]).is_edge() && self.ledgers@[i].borrower == (
            #[trigger] self.nodes@[k]).user_id implies self.nodes@[k].connections@.contains(
            i as usize,
        ) by {
            lemma_edge_was_edge(before.ledgers@, self.ledgers@, i);
        }
        assert forall|i: int|
            0 <= i < self.ledgers@.len() && (#[trigger] self.ledgers@[i]).is_edge() && known(
                self.users@,
                self.ledgers@[i].borrower,
            ) implies self.has_node(self.ledgers@[i].borrower) by {
            lemma_edge_was_edge(before.ledgers@, self.ledgers@, i);
            assert(before.has_node(before.ledgers@[i].borrower));
        }
        assert forall|k: int, j: int|
            0 <= k < self.nodes@.len() && 0 <= j < self.nodes@[k].connections@.len() implies {
            let c = #[trigger] self.nodes@[k].connections@[j];
            c < self.ledgers@.len() && self.ledgers@[c as int].borrower == self.nodes@[k].user_id
        } by {
            let c = before.nodes@[k].connections@[j];
            assert(self.ledgers@[c as int].borrower == before.ledgers@[c as int].borrower);
        }
    }

    /// One netting keeps what a pass of nettings keeps.
    #[verifier::rlimit(40)]
    proof fn lemma_netting_step(
        &self,
        before: Graph,
        start: Seq<Ledger>,
        stored: int,
        c: int,
        r: int,
    )
        requires
            before.wf(),
            self.nodes == before.nodes,
            self.users == before.users,
            0 <= stored <= before.updates@.len(),
            netting_pass(start, before.ledgers@, before.updates@.skip(stored)),
            netting_among_members(
                before.users@,
                start,
                before.ledgers@,
                before.updates@.skip(stored),
            ),
            before.has_node(before.ledgers@[c].borrower),
            before.has_node(before.ledgers@[r].borrower),
            0 <= c < before.ledgers@.len(),
            0 <= r < before.ledgers@.len(),
            before.ledgers@[c].is_edge(),
            before.ledgers@[r].is_edge(),
            before.ledgers@[c].opposes(before.ledgers@[r]),
            self.ledgers@ == net(before.ledgers@, c, r),
            self.updates@ == before.updates@.push(self.ledgers@[c]).push(self.ledgers@[r]),
        ensures
            self.wf(),
            netting_pass(start, self.ledgers@, self.updates@.skip(stored)),
            netting_among_members(self.users@, start, self.ledgers@, self.updates@.skip(stored)),
            reduces(before.ledgers@, self.ledgers@),
            self.updates@.take(stored) == before.updates@.take(stored),
            one_edge_per_pair(start) ==> unopposed(self.ledgers@, c),
    {
        let cur = before.ledgers@;
        let written = before.updates@.skip(stored);
        let next = self.ledgers@;
        lemma_net_step(start, cur, c, r);
        lemma_nets_next(start, cur, written, c, r);
        assert(next[c].id == cur[c].id && next[r].id == cur[r].id);
        assert(next[c].sum >= 0 && next[r].sum >= 0);
        self.lemma_wf_stable(before);
        let l1 = next[c];
        let l2 = next[r];
        let mid = cur.update(c, l1);
        assert(self.updates@.skip(stored) =~= written.push(l1).push(l2));
        assert(self.updates@.take(stored) =~= before.updates@.take(stored));
        lemma_edge_was_edge(start, cur, c);
        lemma_edge_was_edge(start, cur, r);
        if unique_ids(start) {
            lemma_unique_ids_stable(start, cur);
            lemma_replay_push(start, written, c, l1);
            assert(reduces(cur, mid));
            lemma_reduces_trans(start, cur, mid);
            lemma_unique_ids_stable(start, mid);
            lemma_replay_push(start, written.push(l1), r, l2);
            assert(mid.update(r, l2) =~= next);
        }
        if no_mutual_debt(start) {
            assert(start[c].opposes(start[r]));
        }
        if no_member_mutual_debt(self.users@, start) {
            assert(known(self.users@, start[c].borrower) && known(self.users@, start[r].borrower)) by {
                reveal(Graph::wf);
            }
            assert(member_edge(self.users@, start[c]) && member_edge(self.users@, start[r]));
            assert(start[c].opposes(start[r]));
        }
    }

    /// Nets every edge of the node `k` against the edge that runs against it,
    /// if there is one.
    #[verifier::rlimit(40)]
    fn resolve_bidirectional_debt_node(
        &mut self,
        k: usize,
        Ghost(start): Ghost<Seq<Ledger>>,
        Ghost(stored): Ghost<int>,
    ) -> (done: Result<(), DebtError>)
        requires
            old(self).wf(),
            k < old(self).nodes@.len(),
            0 <= stored <= old(self).updates@.len(),
            netting_pass(start, old(self).ledgers@, old(self).updates@.skip(stored)),
            netting_among_members(
                old(self).users@,
                start,
                old(self).ledgers@,
                old(self).updates@.skip(stored),
            ),
        ensures
            done is Ok,
            final(self).wf(),
            final(self).nodes == old(self).nodes,
            final(self).users == old(self).users,
            stored <= final(self).updates@.len(),
            final(self).updates@.take(stored) == old(self).updates@.take(stored),
            netting_pass(start, final(self).ledgers@, final(self).updates@.skip(stored)),
            netting_among_members(
                final(self).users@,
                start,
                final(self).ledgers@,
                final(self).updates@.skip(stored),
            ),
            reduces(old(self).ledgers@, final(self).ledgers@),
            forall|i: int|
                0 <= i < old(self).ledgers@.len() && (#[trigger] old(self).ledgers@[i]).borrower
                    != old(self).nodes@[k as int].user_id && old(self).ledgers@[i].owes
                    != old(self).nodes@[k as int].user_id ==> final(self).ledgers@[i] == old(
                    self,
                ).ledgers@[i],
            one_edge_per_pair(start) ==> forall|j: int|
                0 <= j < old(self).nodes@[k as int].connections@.len() ==> settled_among_members(
                    final(self).users@,
                    final(self).ledgers@,
                    (#[trigger] old(self).nodes@[k as int].connections@[j]) as int,
                ),
    {
        let mut j: usize = 0;
        while j < self.nodes[k].connections.len()
            invariant
                self.wf(),
                k < self.nodes@.len(),
                self.nodes == old(self).nodes,
                self.users == old(self).users,
                0 <= stored <= old(self).updates@.len(),
                stored <= self.updates@.len(),
                self.updates@.take(stored) == old(self).updates@.take(stored),
                netting_pass(start, self.ledgers@, self.updates@.skip(stored)),
                netting_among_members(self.users@, start, self.ledgers@, self.updates@.skip(stored)),
                reduces(old(self).ledgers@, self.ledgers@),
                forall|i: int|
                    0 <= i < old(self).ledgers@.len() && (
                    #[trigger] old(self).ledgers@[i]).borrower != self.nodes@[k as int].user_id
                        && old(self).ledgers@[i].owes != self.nodes@[k as int].user_id
                        ==> self.ledgers@[i] == old(self).ledgers@[i],
                j <= self.nodes@[k as int].connections@.len(),
                one_edge_per_pair(start) ==> forall|m: int|
                    0 <= m < j ==> settled_among_members(
                        self.users@,
                        self.ledgers@,
                        (#[trigger] self.nodes@[k as int].connections@[m]) as int,
                    ),
            decreases self.nodes@[k as int].connections@.len() - j,
        {
            let c = self.nodes[k].connections[j];
            assert(c < self.ledgers@.len() && self.ledgers@[c as int].borrower
                == self.nodes@[k as int].user_id) by {
                reveal(Graph::wf);
            }
            let ghost before = *self;
            let ghost cur = self.ledgers@;
            let ghost written = self.updates@.skip(stored);
            if let Some(ledger) = self.edge_at(c) {
                if let Some(r) = self.find_edge(ledger.owes, ledger.borrower) {
                    let neighbour_ledger = self.ledgers[r].copy();
                    match handle_bidirectional_ledgers(ledger, neighbour_ledger) {
                        Ok((l1, l2)) => {
                            self.update_ledger(c, l1);
                            self.update_ledger(r, l2);
                        },
                        Err(e) => {
                            return Err(e);
                        },
                    }
                    proof {
                        assert(c != r);
                        assert(self.ledgers@ =~= net(cur, c as int, r as int));
                        assert(before.has_node(cur[c as int].borrower)) by {
                            let _ = before.nodes@[k as int];
                        }
                        self.lemma_netting_step(before, start, stored, c as int, r as int);
                    }
                } else {
                    proof {
                        if opposed_by_member(self.users@, cur, c as int) {
                            let b = choose|b: int|
                                0 <= b < cur.len() && member_edge(self.users@, #[trigger] cur[b])
                                    && cur[b].opposes(cur[c as int]);
                            assert(self.has_node(cur[b].borrower)) by {
                                reveal(Graph::wf);
                            }
                        }
                        assert(settled_among_members(self.users@, cur, c as int));
                    }
                }
            }
            proof {
                if one_edge_per_pair(start) {
                    assert forall|m: int| 0 <= m < j + 1 implies settled_among_members(
                        self.users@,
                        self.ledgers@,
                        (#[trigger] self.nodes@[k as int].connections@[m]) as int,
                    ) by {
                        let i = self.nodes@[k as int].connections@[m] as int;
                        assert(i < cur.len()) by {
                            reveal(Graph::wf);
                        }
                        if m < j {
                            assert(settled_among_members(self.users@, cur, i));
                            if self.ledgers@ != cur {
                                lemma_member_settled_stable(self.users@, cur, self.ledgers@, i);
                            }
                        }
                    }
                }
                if self.ledgers@ != cur {
                    assert(reduces(before.ledgers@, self.ledgers@));
                    lemma_reduces_trans(old(self).ledgers@, cur, self.ledgers@);
                }
            }
            j += 1;
        }
        Ok(())
    }

    /// Nets mutual debt: wherever two parties owe each other, both edges go
    /// down by the smaller of the two amounts. Each changed ledger is put
    /// down for the store, and the settled ledgers are dropped at the end.
    pub fn resolve_bidirectional_debt(&mut self) -> (done: Result<(), DebtError>)
        requires
            old(self).wf(),
        ensures
            done is Ok,
            final(self).wf(),
            final(self).is_fresh(),
            final(self).users == old(self).users,
            old(self).updates@.len() <= final(self).updates@.len(),
            final(self).updates@.take(old(self).updates@.len() as int) == old(self).updates@,
            mutual_debt_resolved(
                old(self).users@,
                old(self).ledgers@,
                final(self).ledgers@,
                final(self).updates@.skip(old(self).updates@.len() as int),
            ),
    {
        match self.net_mutual_debt() {
            Ok(_) => {},
            Err(e) => {
                return Err(e);
            },
        }
        let ghost mid = self.ledgers@;
        self.reset_nodes();
        proof {
            assert(netting_pass(
                old(self).ledgers@,
                mid,
                self.updates@.skip(old(self).updates@.len() as int),
            ));
        }
        Ok(())
    }

    /// Nets mutual debt and leaves every ledger in its place, the settled
    /// ones too: wherever two parties owe each other, both edges go down by
    /// the smaller of the two amounts. Each changed ledger is put down for
    /// the store.
    #[verifier::rlimit(40)]
    pub fn net_mutual_debt(&mut self) -> (done: Result<(), DebtError>)
        requires
            old(self).wf(),
        ensures
            done is Ok,
            final(self).wf(),
            final(self).nodes == old(self).nodes,
            final(self).users == old(self).users,
            old(self).updates@.len() <= final(self).updates@.len(),
            final(self).updates@.take(old(self).updates@.len() as int) == old(self).updates@,
            netting_pass(
                old(self).ledgers@,
                final(self).ledgers@,
                final(self).updates@.skip(old(self).updates@.len() as int),
            ),
            netting_among_members(
                old(self).users@,
                old(self).ledgers@,
                final(self).ledgers@,
                final(self).updates@.skip(old(self).updates@.len() as int),
            ),
            one_edge_per_pair(old(self).ledgers@) ==> no_member_mutual_debt(
                old(self).users@,
                final(self).ledgers@,
            ),
            well_formed(old(self).users@, old(self).ledgers@) ==> no_mutual_debt(
                final(self).ledgers@,
            ) && pairs_netted(old(self).ledgers@, final(self).ledgers@),
    {
        let ghost start = self.ledgers@;
        let ghost stored = self.updates@.len() as int;
        let mut k: usize = 0;
        proof {
            assert(self.updates@.skip(stored) =~= Seq::<Ledger>::empty());
            assert(self.updates@.take(stored) =~= self.updates@);
            lemma_nets_begins(start);
        }
        while k < self.nodes.len()
            invariant
                self.wf(),
                self.nodes == old(self).nodes,
                self.users == old(self).users,
                start == old(self).ledgers@,
                stored == old(self).updates@.len(),
                stored <= self.updates@.len(),
                self.updates@.take(stored) == old(self).updates@,
                netting_pass(start, self.ledgers@, self.updates@.skip(stored)),
                netting_among_members(self.users@, start, self.ledgers@, self.updates@.skip(stored)),
                k <= self.nodes@.len(),
                one_edge_per_pair(start) ==> forall|n: int, m: int|
                    0 <= n < k && 0 <= m < self.nodes@[n].connections@.len()
                        ==> settled_among_members(
                        self.users@,
                        self.ledgers@,
                        (#[trigger] self.nodes@[n].connections@[m]) as int,
                    ),
            decreases self.nodes@.len() - k,
        {
            let ghost cur = self.ledgers@;
            match self.resolve_bidirectional_debt_node(k, Ghost(start), Ghost(stored)) {
                Ok(_) => {},
                Err(e) => {
                    return Err(e);
                },
            }
            proof {
                if one_edge_per_pair(start) {
                    assert forall|n: int, m: int|
                        0 <= n < k + 1 && 0 <= m < self.nodes@[n].connections@.len()
                        implies settled_among_members(
                        self.users@,
                        self.ledgers@,
                        (#[trigger] self.nodes@[n].connections@[m]) as int,
                    ) by {
                        assert(self.nodes@[n].connections@[m] < cur.len()) by {
                            reveal(Graph::wf);
                        }
                        if n < k {
                            lemma_member_settled_stable(
                                self.users@,
                                cur,
                                self.ledgers@,
                                self.nodes@[n].connections@[m] as int,
                            );
                        }
                    }
                }
            }
            k += 1;
        }
        proof {
            if one_edge_per_pair(start) {
                assert forall|i: int| 0 <= i < self.ledgers@.len() implies settled_among_members(
                    self.users@,
                    self.ledgers@,
                    i,
                ) by {
                    if member_edge(self.users@, self.ledgers@[i]) {
                        assert(self.has_node(self.ledgers@[i].borrower)) by {
                            reveal(Graph::wf);
                        }
                        let n = choose|n: int|
                            0 <= n < self.nodes@.len() && (#[trigger] self.nodes@[n]).user_id
                                == self.ledgers@[i].borrower;
                        assert(self.nodes@[n].connections@.contains(i as usize)
                            && self.ledgers@.len() <= usize::MAX) by {
                            reveal(Graph::wf);
                        }
                        let m = choose|m: int|
                            0 <= m < self.nodes@[n].connections@.len()
                                && self.nodes@[n].connections@[m] == i as usize;
                        assert(settled_among_members(
                            self.users@,
                            self.ledgers@,
                            self.nodes@[n].connections@[m] as int,
                        ));
                    }
                }
                lemma_all_member_settled(self.users@, self.ledgers@);
                if members_only(self.users@, start) {
                    lemma_well_formed_stable(self.users@, start, self.ledgers@);
                    lemma_members_are_all(self.users@, self.ledgers@);
                    lemma_all_unopposed(start, self.ledgers@);
                }
            }
        }
        Ok(())
    }

    /// Cancels the closed chain of debt `trail`: a first walk finds the least
    /// amount on it, a second walk takes that amount off every edge of it.
    /// Each changed ledger is put down for the store.
    #[verifier::rlimit(40)]
    pub fn handle_cyclic_debt(&mut self, trail: &Vec<usize>) -> (done: Result<(), DebtError>)
        requires
            old(self).wf(),
            is_cycle(old(self).ledgers@, trail@),
        ensures
            done is Ok,
            final(self).wf(),
            final(self).nodes == old(self).nodes,
            final(self).users == old(self).users,
            cancelled(old(self).ledgers@, final(self).ledgers@, trail@),
            settles(old(self).ledgers@, final(self).ledgers@),
            edge_count(final(self).ledgers@) < edge_count(old(self).ledgers@),
            final(self).updates@.len() == old(self).updates@.len() + trail@.len(),
            final(self).updates@.take(old(self).updates@.len() as int) == old(self).updates@,
            forall|t: int|
                0 <= t < trail@.len() ==> final(self).updates@[old(self).updates@.len() + t]
                    == final(self).ledgers@[(#[trigger] trail@[t]) as int],
            unique_ids(old(self).ledgers@) ==> final(self).ledgers@ == replay(
                old(self).ledgers@,
                final(self).updates@.skip(old(self).updates@.len() as int),
            ),
    {
        let ghost before = self.ledgers@;
        let ghost stored = self.updates@.len() as int;
        let mut sum: i32 = i32::MAX;
        let mut t: usize = 0;
        while t < trail.len()
            invariant
                t <= trail@.len(),
                self.ledgers@ == before,
                is_cycle(before, trail@),
                sum == least(before, trail@.take(t as int)),
            decreases trail@.len() - t,
        {
            proof {
                assert(trail@.take(t + 1).drop_last() =~= trail@.take(t as int));
                assert(trail@.take(t + 1).last() == trail@[t as int]);
                assert(before[trail@[t as int] as int].is_edge());
            }
            if let Some(ledger) = self.edge_at(trail[t]) {
                if ledger.sum < sum {
                    sum = ledger.sum;
                }
            }
            t += 1;
        }
        proof {
            assert(trail@.take(t as int) =~= trail@);
            assert(self.updates@.skip(stored) =~= Seq::<Ledger>::empty());
            assert(self.updates@.take(stored) =~= self.updates@);
            lemma_cancelling_begins(before, trail@, sum as int);
        }
        t = 0;
        while t < trail.len()
            invariant
                t <= trail@.len(),
                self.nodes == old(self).nodes,
                self.users == old(self).users,
                before == old(self).ledgers@,
                stored == old(self).updates@.len(),
                is_cycle(before, trail@),
                sum == least(before, trail@),
                stored <= self.updates@.len(),
                self.updates@.take(stored) == old(self).updates@,
                cancelling(
                    before,
                    self.ledgers@,
                    trail@,
                    t as int,
                    sum as int,
                    self.updates@.skip(stored),
                ),
            decreases trail@.len() - t,
        {
            let e = trail[t];
            let ghost cur = self.ledgers@;
            let ghost written = self.updates@.skip(stored);
            proof {
                lemma_cancelling_next(before, cur, trail@, t as int, sum as int, written);
            }
            let updated = reduce_ledger(self.ledgers[e].copy(), sum);
            self.update_ledger(e, updated);
            proof {
                assert(self.updates@.skip(stored) =~= written.push(updated));
                assert(self.updates@.take(stored) =~= old(self).updates@);
            }
            t += 1;
        }
        proof {
            let written = self.updates@.skip(stored);
            lemma_cancelling_done(before, self.ledgers@, trail@, written);
            self.lemma_wf_stable(*old(self));
            assert forall|d: int| 0 <= d < trail@.len() implies self.updates@[stored + d]
                == self.ledgers@[(#[trigger] trail@[d]) as int] by {
                assert(written[d] == self.updates@[stored + d]);
            }
        }
        Ok(())
    }

    /// Looks for a closed chain of debt from the node `k` and cancels it if it
    /// runs through more than two parties; the settled ledgers are then
    /// dropped and the nodes derived anew. Tells whether a chain was
    /// cancelled.
    #[verifier::rlimit(40)]
    fn resolve_cyclic_debt_node(
        &mut self,
        k: usize,
        Ghost(start): Ghost<Seq<Ledger>>,
        Ghost(stored): Ghost<int>,
    ) -> (done: Result<bool, DebtError>)
        requires
            old(self).wf(),
            k < old(self).nodes@.len(),
            0 <= stored <= old(self).updates@.len(),
            cycle_pass(start, old(self).ledgers@, old(self).updates@.skip(stored)),
            cancelling_among_members(
                old(self).users@,
                start,
                old(self).ledgers@,
                old(self).updates@.skip(stored),
            ),
        ensures
            done is Ok,
            final(self).wf(),
            final(self).users == old(self).users,
            stored <= final(self).updates@.len(),
            final(self).updates@.take(stored) == old(self).updates@.take(stored),
            cycle_pass(start, final(self).ledgers@, final(self).updates@.skip(stored)),
            cancelling_among_members(
                final(self).users@,
                start,
                final(self).ledgers@,
                final(self).updates@.skip(stored),
            ),
            done == Ok::<bool, DebtError>(true) ==> {
                &&& exists|trail: Seq<usize>|
                    #[trigger] is_cycle(old(self).ledgers@, trail) && trail.len() > 2
                        && old(self).ledgers@[trail[0] as int].borrower
                        == old(self).nodes@[k as int].user_id && final(self).ledgers@ == pruned(
                        cancel(old(self).ledgers@, trail),
                    )
                &&& pruned(final(self).ledgers@) == final(self).ledgers@
                &&& final(self).is_fresh()
                &&& edge_count(final(self).ledgers@) < edge_count(old(self).ledgers@)
                &&& final(self).nodes@.len() <= final(self).users@.len()
            },
            done == Ok::<bool, DebtError>(false) ==> *final(self) == *old(self) && (
            no_member_cycle_from(
                old(self).users@,
                old(self).ledgers@,
                old(self).nodes@[k as int].user_id,
            ) || in_member_mutual_debt(
                old(self).users@,
                old(self).ledgers@,
                old(self).nodes@[k as int].user_id,
            )) && (members_only(old(self).users@, old(self).ledgers@) ==> no_cycle_from(
                old(self).ledgers@,
                old(self).nodes@[k as int].user_id,
            ) || in_mutual_debt(old(self).ledgers@, old(self).nodes@[k as int].user_id)),
    {
        match self.find_cycle(k) {
            Some(trail) => {
                if trail.len() > 2 {
                    let ghost cur = self.ledgers@;
                    let ghost written = self.updates@.skip(stored);
                    let ghost len = self.updates@.len() as int;
                    match self.handle_cyclic_debt(&trail) {
                        Ok(_) => {},
                        Err(e) => {
                            return Err(e);
                        },
                    }
                    let ghost next = self.ledgers@;
                    self.reset_nodes();
                    proof {
                        let fresh = self.updates@.skip(len);
                        assert(self.updates@.skip(stored) =~= written + fresh);
                        assert forall|d: int| 0 <= d < trail@.len() implies #[trigger] fresh[d]
                            == next[trail@[d] as int] by {
                            assert(fresh[d] == self.updates@[len + d]);
                        }
                        lemma_cycle_pass_next(start, cur, written, trail@, next, fresh);
                        assert(self.updates@.take(stored) =~= old(self).updates@.take(stored)) by {
                            assert(self.updates@.take(len) == old(self).updates@);
                        }
                        assert(next =~= cancel(cur, trail@));
                        assert(is_cycle(cur, trail@));
                        assert(member_cycle(self.users@, cur, trail@));
                    }
                    return Ok(true);
                }
                proof {
                    assert(member_cycle(self.users@, self.ledgers@, trail@));
                    lemma_short_member_cycle(self.users@, self.ledgers@, trail@);
                }
                Ok(false)
            },
            None => Ok(false),
        }
    }

    /// Cancels circular debt: every node in turn is searched for a closed
    /// chain of debt through more than two parties, and a chain that is
    /// found is cancelled. The passes over the nodes are repeated until one
    /// of them cancels nothing. Each changed ledger is put down for the
    /// store, and the settled ledgers are dropped at the end.
    pub fn resolve_cyclic_debt(&mut self) -> (done: Result<(), DebtError>)
        requires
            old(self).wf(),
        ensures
            done is Ok,
            final(self).wf(),
            final(self).is_fresh(),
            final(self).users == old(self).users,
            old(self).updates@.len() <= final(self).updates@.len(),
            final(self).updates@.take(old(self).updates@.len() as int) == old(self).updates@,
            cyclic_debt_resolved(
                old(self).users@,
                old(self).ledgers@,
                final(self).ledgers@,
                final(self).updates@.skip(old(self).updates@.len() as int),
            ),
    {
        match self.cancel_cyclic_debt() {
            Ok(_) => {},
            Err(e) => {
                return Err(e);
            },
        }
        let ghost last = self.ledgers@;
        self.reset_nodes();
        proof {
            assert(cycle_pass(
                old(self).ledgers@,
                last,
                self.updates@.skip(old(self).updates@.len() as int),
            ));
        }
        Ok(())
    }

    /// Cancels circular debt. Every node in turn is searched for a closed
    /// chain of debt through more than two parties; a chain that is found
    /// is cancelled, the settled ledgers are dropped, and the nodes are
    /// derived anew. The passes over the nodes are repeated until one of
    /// them cancels nothing. Each changed ledger is put down for the store.
    /// Where no chain is found, the ledgers stay as they are, settled ones
    /// and all.
    #[verifier::rlimit(40)]
    pub fn cancel_cyclic_debt(&mut self) -> (done: Result<(), DebtError>)
        requires
            old(self).wf(),
        ensures
            done is Ok,
            final(self).wf(),
            final(self).users == old(self).users,
            old(self).updates@.len() <= final(self).updates@.len(),
            final(self).updates@.take(old(self).updates@.len() as int) == old(self).updates@,
            cycle_pass(
                old(self).ledgers@,
                final(self).ledgers@,
                final(self).updates@.skip(old(self).updates@.len() as int),
            ),
            final(self).ledgers@ == old(self).ledgers@ || (pruned(final(self).ledgers@)
                == final(self).ledgers@ && final(self).is_fresh()),
            cancelling_among_members(
                old(self).users@,
                old(self).ledgers@,
                final(self).ledgers@,
                final(self).updates@.skip(old(self).updates@.len() as int),
            ),
            member_cycles_rest(old(self).users@, final(self).ledgers@),
            no_member_mutual_debt(old(self).users@, old(self).ledgers@) ==> no_member_cyclic_debt(
                old(self).users@,
                final(self).ledgers@,
            ),
            members_only(old(self).users@, old(self).ledgers@) ==> cycles_rest_on_mutual_debt(
                final(self).ledgers@,
            ),
            members_only(old(self).users@, old(self).ledgers@) && no_mutual_debt(
                old(self).ledgers@,
            ) ==> no_cyclic_debt(final(self).ledgers@),
    {
        let ghost start = self.ledgers@;
        let ghost stored = self.updates@.len() as int;
        proof {
            assert(self.updates@.skip(stored) =~= Seq::<Ledger>::empty());
            assert(self.updates@.take(stored) =~= self.updates@);
            lemma_cycle_pass_begins(start);
        }
        let mut again = true;
        while again
            invariant
                self.wf(),
                self.users == old(self).users,
                start == old(self).ledgers@,
                stored == old(self).updates@.len(),
                stored <= self.updates@.len(),
                self.updates@.take(stored) == old(self).updates@,
                cycle_pass(start, self.ledgers@, self.updates@.skip(stored)),
                cancelling_among_members(
                    self.users@,
                    start,
                    self.ledgers@,
                    self.updates@.skip(stored),
                ),
                self.ledgers@ == start || (pruned(self.ledgers@) == self.ledgers@
                    && self.is_fresh()),
                !again ==> member_cycles_rest(self.users@, self.ledgers@),
            decreases edge_count(self.ledgers@) + if again { 1nat } else { 0nat },
        {
            let ghost pass = *self;
            let mut cancelled = false;
            let mut k: usize = 0;
            while k < self.nodes.len()
                invariant
                    self.wf(),
                    self.users == old(self).users,
                    pass.users == self.users,
                    start == old(self).ledgers@,
                    stored == old(self).updates@.len(),
                    stored <= self.updates@.len(),
                    self.updates@.take(stored) == old(self).updates@,
                    cycle_pass(start, self.ledgers@, self.updates@.skip(stored)),
                    cancelling_among_members(
                        self.users@,
                        start,
                        self.ledgers@,
                        self.updates@.skip(stored),
                    ),
                    self.ledgers@ == start || (pruned(self.ledgers@) == self.ledgers@
                        && self.is_fresh()),
                    edge_count(self.ledgers@) <= edge_count(pass.ledgers@),
                    cancelled ==> edge_count(self.ledgers@) < edge_count(pass.ledgers@)
                        && self.nodes@.len() <= self.users@.len(),
                    !cancelled ==> *self == pass,
                    !cancelled ==> forall|n: int|
                        0 <= n < k && n < self.nodes@.len() ==> no_member_cycle_from(
                            self.users@,
                            self.ledgers@,
                            (#[trigger] self.nodes@[n]).user_id,
                        ) || in_member_mutual_debt(
                            self.users@,
                            self.ledgers@,
                            self.nodes@[n].user_id,
                        ),
                decreases left(self.nodes@.len(), self.users@.len(), k as nat),
            {
                let ghost nodes = self.nodes@.len();
                match self.resolve_cyclic_debt_node(k, Ghost(start), Ghost(stored)) {
                    Ok(changed) => {
                        if changed {
                            cancelled = true;
                            assert(self.nodes@.len() <= self.users@.len());
                        } else {
                            assert(self.nodes@.len() == nodes);
                        }
                    },
                    Err(e) => {
                        return Err(e);
                    },
                }
                k += 1;
            }
            proof {
                if !cancelled {
                    assert forall|x: UserId| #[trigger]
                        no_member_cycle_from(self.users@, self.ledgers@, x)
                            || in_member_mutual_debt(self.users@, self.ledgers@, x) by {
                        if !no_member_cycle_from(self.users@, self.ledgers@, x) {
                            let trail = choose|trail: Seq<usize>| #[trigger]
                                member_cycle(self.users@, self.ledgers@, trail)
                                    && self.ledgers@[trail[0] as int].borrower == x;
                            let e = trail[0] as int;
                            assert(self.ledgers@[e].is_edge());
                            assert(known(self.users@, self.ledgers@[trail[0] as int].borrower));
                            assert(self.has_node(x)) by {
                                reveal(Graph::wf);
                            }
                            let n = choose|n: int|
                                0 <= n < self.nodes@.len() && (#[trigger] self.nodes@[n]).user_id
                                    == x;
                            assert(no_member_cycle_from(
                                self.users@,
                                self.ledgers@,
                                self.nodes@[n].user_id,
                            ) || in_member_mutual_debt(
                                self.users@,
                                self.ledgers@,
                                self.nodes@[n].user_id,
                            ));
                        }
                    }
                }
            }
            again = cancelled;
        }
        proof {
            assert(descends(start, self.ledgers@)) by {
                reveal(cycle_pass);
            }
            if no_member_mutual_debt(self.users@, start) {
                lemma_member_debt_stable(self.users@, start, self.ledgers@);
                lemma_no_member_rest(self.users@, self.ledgers@);
            }
            if members_only(self.users@, start) {
                lemma_descends_stable(self.users@, start, self.ledgers@);
                lemma_members_are_all_cycles(self.users@, self.ledgers@);
                if no_mutual_debt(start) {
                    lemma_no_rest(self.ledgers@);
                }
            }
        }
        Ok(())
    }

    /// The places of the edges on which `user_id` is the borrower, in order.
    fn connections_of(&self, user_id: &UserId) -> (found: Vec<usize>)
        ensures
            found@ == edges_of(self.ledgers@, *user_id),
            forall|j: int|
                0 <= j < found@.len() ==> {
                    let c = #[trigger] found@[j];
                    c < self.ledgers@.len() && self.ledgers@[c as int].is_edge()
                        && self.ledgers@[c as int].borrower == *user_id
                },
            forall|i: int, j: int|
                0 <= i < j < found@.len() ==> (#[trigger] found@[i]) < (#[trigger] found@[j]),
            forall|i: int|
                0 <= i < self.ledgers@.len() && (#[trigger] self.ledgers@[i]).is_edge()
                    && self.ledgers@[i].borrower == *user_id ==> found@.contains(i as usize),
    {
        let mut found: Vec<usize> = Vec::new();
        let mut i: usize = 0;
        while i < self.ledgers.len()
            invariant
                i <= self.ledgers@.len(),
                found@ == edges_of(self.ledgers@.take(i as int), *user_id),
                forall|j: int|
                    0 <= j < found@.len() ==> {
                        let c = #[trigger] found@[j];
                        c < i && c < self.ledgers@.len() && self.ledgers@[c as int].is_edge()
                            && self.ledgers@[c as int].borrower == *user_id
                    },
                forall|a: int, b: int|
                    0 <= a < b < found@.len() ==> (#[trigger] found@[a]) < (#[trigger] found@[b]),
                forall|m: int|
                    0 <= m < i && (#[trigger] self.ledgers@[m]).is_edge()
                        && self.ledgers@[m].borrower == *user_id ==> found@.contains(m as usize),
            decreases self.ledgers@.len() - i,
        {
            let ledger = &self.ledgers[i];
            proof {
                assert(self.ledgers@.take(i + 1).drop_last() =~= self.ledgers@.take(i as int));
                assert(self.ledgers@.take(i + 1).last() == self.ledgers@[i as int]);
            }
            if ledger.sum > 0 && ledger.borrower != ledger.owes && ledger.borrower == *user_id {
                let ghost before = found@;
                found.push(i);
                proof {
                    assert(found@[before.len() as int] == i);
                    assert forall|m: int|
                        0 <= m < i && (#[trigger] self.ledgers@[m]).is_edge()
                            && self.ledgers@[m].borrower == *user_id implies found@.contains(
                        m as usize,
                    ) by {
                        let j = choose|j: int| 0 <= j < before.len() && before[j] == m as usize;
                        assert(found@[j] == m as usize);
                    }
                }
            }
            i += 1;
        }
        proof {
            assert(self.ledgers@.take(i as int) =~= self.ledgers@);
        }
        found
    }

    /// Derives the nodes anew from the users and the ledgers as they are.
    #[verifier::rlimit(40)]
    pub fn create_nodes(&mut self)
        ensures
            final(self).ledgers == old(self).ledgers,
            final(self).users == old(self).users,
            final(self).updates == old(self).updates,
            final(self).wf(),
            final(self).is_fresh(),
            final(self).nodes@.len() <= final(self).users@.len(),
    {
        self.nodes = Vec::new();
        let mut u: usize = 0;
        while u < self.users.len()
            invariant
                u <= self.users@.len(),
                self.ledgers == old(self).ledgers,
                self.users == old(self).users,
                self.updates == old(self).updates,
                self.nodes@.len() == parties_of(self.users@.take(u as int), self.ledgers@).len(),
                forall|k: int|
                    0 <= k < self.nodes@.len() ==> (#[trigger] self.nodes@[k]).user_id
                        == parties_of(self.users@.take(u as int), self.ledgers@)[k]
                        && self.nodes@[k].connections@ == edges_of(
                        self.ledgers@,
                        self.nodes@[k].user_id,
                    ),
                self.nodes@.len() <= u,
                forall|k: int|
                    0 <= k < self.nodes@.len() ==> known(
                        self.users@,
                        (#[trigger] self.nodes@[k]).user_id,
                    ),
                forall|k: int| 0 <= k < self.nodes@.len() ==> (#[trigger] self.nodes@[k]).id == k,
                forall|k: int, m: int|
                    0 <= k < m < self.nodes@.len() ==> (#[trigger] self.nodes@[k]).user_id != (
                    #[trigger] self.nodes@[m]).user_id,
                forall|k: int, j: int|
                    0 <= k < self.nodes@.len() && 0 <= j < self.nodes@[k].connections@.len() ==> {
                        let c = #[trigger] self.nodes@[k].connections@[j];
                        c < self.ledgers@.len() && self.ledgers@[c as int].borrower
                            == self.nodes@[k].user_id
                    },
                forall|k: int, i: int|
                    0 <= k < self.nodes@.len() && 0 <= i < self.ledgers@.len() && (
                    #[trigger] self.ledgers@[i]).is_edge() && self.ledgers@[i].borrower == (
                    #[trigger] self.nodes@[k]).user_id ==> self.nodes@[k].connections@.contains(
                        i as usize,
                    ),
                forall|w: int, i: int|
                    0 <= w < u && 0 <= i < self.ledgers@.len() && (
                    #[trigger] self.ledgers@[i]).is_edge() && self.ledgers@[i].borrower == (
                    #[trigger] self.users@[w]).user_id ==> self.has_node(
                        self.ledgers@[i].borrower,
                    ),
            decreases self.users@.len() - u,
        {
            let user_id = self.users[u].user_id;
            let ghost before = *self;
            let ghost rest = parties_of(self.users@.take(u as int), self.ledgers@);
            proof {
                assert(self.users@.take(u + 1).drop_last() =~= self.users@.take(u as int));
                assert(self.users@.take(u + 1).last() == self.users@[u as int]);
                if rest.contains(user_id) {
                    let k = choose|k: int| 0 <= k < rest.len() && rest[k] == user_id;
                    assert(self.nodes@[k].user_id == user_id);
                    assert(self.has_node(user_id));
                }
                if self.has_node(user_id) {
                    let k = choose|k: int|
                        0 <= k < self.nodes@.len() && (#[trigger] self.nodes@[k]).user_id
                            == user_id;
                    assert(rest[k] == user_id);
                    assert(rest.contains(user_id));
                }
            }
            if self.find_node_by_user(&user_id).is_none() {
                let connections = self.connections_of(&user_id);
                if connections.len() > 0 {
                    let mut node = Node::new(user_id, self.nodes.len());
                    node.connections = connections;
                    self.nodes.push(node);
                    proof {
                        let n = before.nodes@.len() as int;
                        assert(self.nodes@[n].user_id == user_id);
                        assert(forall|k: int| 0 <= k < n ==> self.nodes@[k] == before.nodes@[k]);
                        assert forall|k: int| 0 <= k < n implies (
                        #[trigger] self.nodes@[k]).user_id != user_id by {
                            let _ = before.nodes@[k];
                        }
                        assert(known(self.users@, user_id)) by {
                            let _ = self.users@[u as int];
                        }
                    }
                } else {
                    proof {
                        assert forall|i: int|
                            0 <= i < self.ledgers@.len() && (#[trigger] self.ledgers@[i]).is_edge()
                            implies self.ledgers@[i].borrower != user_id by {
                            if self.ledgers@[i].borrower == user_id {
                                assert(connections@.contains(i as usize));
                            }
                        }
                    }
                }
            }
            proof {
                assert forall|w: int, i: int|
                    0 <= w < u + 1 && 0 <= i < self.ledgers@.len() && (
                    #[trigger] self.ledgers@[i]).is_edge() && self.ledgers@[i].borrower == (
                    #[trigger] self.users@[w]).user_id implies self.has_node(
                    self.ledgers@[i].borrower,
                ) by {
                    if w < u {
                        assert(before.has_node(self.ledgers@[i].borrower));
                        let k = choose|k: int|
                            0 <= k < before.nodes@.len() && (#[trigger] before.nodes@[k]).user_id
                                == self.ledgers@[i].borrower;
                        assert(self.nodes@[k] == before.nodes@[k]);
                    } else {
                        assert(self.has_node(user_id));
                    }
                }
            }
            u += 1;
        }
        proof {
            assert(self.ledgers@.len() == self.ledgers.len());
            assert forall|i: int|
                0 <= i < self.ledgers@.len() && (#[trigger] self.ledgers@[i]).is_edge() && known(
                    self.users@,
                    self.ledgers@[i].borrower,
                ) implies self.has_node(self.ledgers@[i].borrower) by {
                let w = choose|w: int|
                    0 <= w < self.users@.len() && (#[trigger] self.users@[w]).user_id
                        == self.ledgers@[i].borrower;
                let _ = self.users@[w];
            }
            assert(self.wf()) by {
                reveal(Graph::wf);
            }
            assert(self.users@.take(u as int) =~= self.users@);
        }
    }

    /// Drops the settled ledgers and derives the nodes anew.
    pub fn reset_nodes(&mut self)
        ensures
            final(self).ledgers@ == pruned(old(self).ledgers@),
            pruned(final(self).ledgers@) == final(self).ledgers@,
            final(self).users == old(self).users,
            final(self).updates == old(self).updates,
            final(self).wf(),
            final(self).is_fresh(),
            final(self).nodes@.len() <= final(self).users@.len(),
    {
        let mut kept: Vec<Ledger> = Vec::new();
        let mut i: usize = 0;
        while i < self.ledgers.len()
            invariant
                i <= self.ledgers@.len(),
                self.ledgers == old(self).ledgers,
                self.users == old(self).users,
                self.updates == old(self).updates,
                kept@ == pruned(self.ledgers@.take(i as int)),
            decreases self.ledgers@.len() - i,
        {
            proof {
                assert(self.ledgers@.take(i + 1) =~= self.ledgers@.take(i as int).push(
                    self.ledgers@[i as int],
                ));
                self.ledgers@.take(i as int).lemma_filter_push(self.ledgers@[i as int], nonzero());
            }
            if self.ledgers[i].sum != 0 {
                kept.push(self.ledgers[i].copy());
            }
            i += 1;
        }
        proof {
            assert(self.ledgers@.take(i as int) =~= self.ledgers@);
        }
        proof {
            lemma_pruned_twice(self.ledgers@);
        }
        self.ledgers = kept;
        self.create_nodes();
    }

    /// The graph of a group: its users, its ledgers, and the nodes derived
    /// from them. Nothing waits to be stored.
    pub fn from(users: Vec<User>, ledgers: Vec<Ledger>) -> (graph: Graph)
        ensures
            graph.ledgers == ledgers,
            graph.users == users,
            graph.updates@ == Seq::<Ledger>::empty(),
            graph.wf(),
            graph.is_fresh(),
    {
        let mut graph = Graph { users, ledgers, nodes: Vec::new(), updates: Vec::new() };
        graph.create_nodes();
        graph
    }
}

/// The ledger with its amount lowered by `sum`.
pub fn reduce_ledger(l: Ledger, sum: i32) -> (reduced: Ledger)
    requires
        0 <= sum <= l.sum,
    ensures
        reduced == l.with_sum(l.sum - sum),
{
    let mut l = l;
    l.sum -= sum;
    l
}

/// Nets two ledgers that run against each other: both go down by the smaller
/// of the two amounts. Two ledgers that do not run against each other are
/// refused.
pub fn handle_bidirectional_ledgers(l1: Ledger, l2: Ledger) -> (netted: Result<
    (Ledger, Ledger),
    DebtError,
>)
    requires
        0 <= l1.sum,
        0 <= l2.sum,
    ensures
        match netted {
            Ok((n1, n2)) => {
                &&& l1.opposes(l2)
                &&& n1 == l1.with_sum(l1.sum - min(l1.sum as int, l2.sum as int))
                &&& n2 == l2.with_sum(l2.sum - min(l1.sum as int, l2.sum as int))
            },
            Err(e) => e == DebtError::InvariantViolation && !l1.opposes(l2),
        },
{
    // should always be, just double check
    if l1.borrower == l2.owes && l2.borrower == l1.owes {
        let sum = if l1.sum <= l2.sum {
            l1.sum
        } else {
            l2.sum
        };
        let l1_updated = reduce_ledger(l1, sum);
        let l2_updated = reduce_ledger(l2, sum);
        return Ok((l1_updated, l2_updated));
    }
    Err(DebtError::InvariantViolation)
}

/// Going down twice is going down.
pub proof fn lemma_reduces_trans(a: Seq<Ledger>, b: Seq<Ledger>, c: Seq<Ledger>)
    requires
        reduces(a, b),
        reduces(b, c),
    ensures
        reduces(a, c),
{
    assert forall|i: int| 0 <= i < a.len() implies {
        &&& (#[trigger] c[i]).id == a[i].id
        &&& c[i].borrower == a[i].borrower
        &&& c[i].owes == a[i].owes
        &&& c[i].sum <= a[i].sum
        &&& a[i].is_edge() ==> 0 <= c[i].sum
        &&& !a[i].is_edge() ==> c[i].sum == a[i].sum
    } by {
        assert(b[i].id == a[i].id);
    }
}

} // verus!
