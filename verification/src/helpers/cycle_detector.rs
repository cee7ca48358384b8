use vstd::prelude::*;
use crate::types::balance::all_positive;
use crate::types::balance::conserves;
use crate::types::balance::lemma_conserves_trans;
use crate::types::balance::lemma_descends_pruned;
use crate::types::balance::lemma_pruned_twice;
use crate::types::balance::lemma_reduces_descends;
use crate::types::balance::lemma_settled_and_pruned;
use crate::types::balance::lemma_total_pruned;
use crate::types::balance::balance;
use crate::types::balance::from_to;
use crate::types::balance::no_negative;
use crate::types::balance::nonzero;
use crate::types::balance::owed;
use crate::types::balance::owed_by;
use crate::types::balance::owed_to;
use crate::types::balance::pruned;
use crate::types::cycle::cycles_rest_on_mutual_debt;
use crate::types::cycle::lemma_pruned_no_cyclic_debt;
use crate::types::cycle::lemma_pruned_no_member_cyclic_debt;
use crate::types::cycle::member_cycles_rest;
use crate::types::cycle::no_cyclic_debt;
use crate::types::cycle::no_member_cyclic_debt;
use crate::types::graph::cancelling_among_members;
use crate::types::graph::cycle_pass;
use crate::types::graph::cyclic_debt_resolved;
use crate::types::graph::mutual_debt_resolved;
use crate::types::graph::netting_among_members;
use crate::types::graph::netting_pass;
use crate::types::graph::DebtError;
use crate::types::graph::Graph;
use crate::types::ledger::Ledger;
use crate::types::netting::lemma_descends_stable;
use crate::types::netting::lemma_member_debt_stable;
use crate::types::netting::lemma_pruned_stable;
use crate::types::netting::lemma_well_formed_stable;
use crate::types::netting::members_only;
use crate::types::netting::no_member_mutual_debt;
use crate::types::netting::no_mutual_debt;
use crate::types::netting::one_edge_per_pair;
use crate::types::netting::pairs_netted;
use crate::types::netting::well_formed;
use crate::types::user::User;
use crate::types::user::UserId;

verus! {

/// `after` is what simplifying `before` leaves: the mutual debt is netted,
/// then the circular debt of what the netting leaves is cancelled, and
/// `written` is what the two put down for the store, one after the other.
pub open spec fn debt_resolved(
    users: Seq<User>,
    before: Seq<Ledger>,
    after: Seq<Ledger>,
    written: Seq<Ledger>,
) -> bool {
    exists|netted: Seq<Ledger>, first: Seq<Ledger>, second: Seq<Ledger>|
        {
            &&& #[trigger] mutual_debt_resolved(users, before, netted, first)
            &&& #[trigger] cyclic_debt_resolved(users, netted, after, second)
            &&& written == first + second
        }
}

/// What netting the mutual debt leaves: it conserves, holds no settled
/// ledger and no amount below zero where none was, no mutual debt between
/// users where no ordered pair had two edges, and no mutual debt at all
/// where every borrower is a user besides. Where no two users owed each
/// other, only the settled ledgers have gone and nothing was written.
pub proof fn lemma_mutual_debt_resolved(
    users: Seq<User>,
    before: Seq<Ledger>,
    after: Seq<Ledger>,
    written: Seq<Ledger>,
)
    requires
        mutual_debt_resolved(users, before, after, written),
    ensures
        conserves(before, after),
        pruned(after) == after,
        after.len() <= before.len(),
        no_negative(before) ==> all_positive(after),
        one_edge_per_pair(before) ==> no_member_mutual_debt(users, after),
        well_formed(users, before) ==> no_mutual_debt(after) && members_only(users, after),
        no_member_mutual_debt(users, before) ==> after == pruned(before) && written.len() == 0,
        no_negative(written),
{
    let mid = choose|mid: Seq<Ledger>|
        {
            &&& #[trigger] netting_pass(before, mid, written)
            &&& after == pruned(mid)
            &&& netting_among_members(users, before, mid, written)
            &&& one_edge_per_pair(before) ==> no_member_mutual_debt(users, mid)
            &&& well_formed(users, before) ==> no_mutual_debt(mid) && pairs_netted(before, mid)
        };
    lemma_pruned_twice(mid);
    lemma_settled_and_pruned(before, mid);
    lemma_reduces_descends(before, mid);
    lemma_descends_pruned(before, mid);
    mid.lemma_filter_len(nonzero());
    lemma_reduces_descends(mid, mid);
    if one_edge_per_pair(before) {
        lemma_member_debt_stable(users, mid, after);
    }
    lemma_well_formed_stable(users, before, mid);
    lemma_pruned_stable(users, mid);
}

/// What cancelling the circular debt leaves: it conserves, holds no settled
/// ledger and no amount below zero where none was, and no mutual debt where
/// there was none. Where no two users owed each other, no closed chain of
/// debt among users is left; where every borrower is a user and nobody owed
/// each other, no closed chain is left at all. Where there was no closed
/// chain among users through three parties or more, only the settled
/// ledgers have gone and nothing was written.
pub proof fn lemma_cyclic_debt_resolved(
    users: Seq<User>,
    before: Seq<Ledger>,
    after: Seq<Ledger>,
    written: Seq<Ledger>,
)
    requires
        before.len() <= usize::MAX,
        cyclic_debt_resolved(users, before, after, written),
    ensures
        conserves(before, after),
        pruned(after) == after,
        after.len() <= before.len(),
        no_negative(before) ==> all_positive(after),
        no_mutual_debt(before) ==> no_mutual_debt(after),
        members_only(users, before) ==> members_only(users, after),
        no_member_mutual_debt(users, before) ==> no_member_mutual_debt(users, after)
            && no_member_cyclic_debt(users, after),
        members_only(users, before) && no_mutual_debt(before) ==> no_cyclic_debt(after),
        no_member_cyclic_debt(users, before) ==> after == pruned(before) && written.len() == 0,
        no_negative(written),
{
    let last = choose|last: Seq<Ledger>|
        {
            &&& #[trigger] cycle_pass(before, last, written)
            &&& after == pruned(last)
            &&& cancelling_among_members(users, before, last, written)
            &&& member_cycles_rest(users, last)
            &&& no_member_mutual_debt(users, before) ==> no_member_cyclic_debt(users, last)
            &&& members_only(users, before) ==> cycles_rest_on_mutual_debt(last)
            &&& members_only(users, before) && no_mutual_debt(before) ==> no_cyclic_debt(last)
        };
    reveal(cycle_pass);
    lemma_pruned_twice(last);
    last.lemma_filter_len(nonzero());
    assert forall|x: UserId, y: UserId| #[trigger] owed(after, x, y) <= owed(before, x, y) by {
        lemma_total_pruned(last, from_to(x, y));
        assert(owed(last, x, y) <= owed(before, x, y));
    }
    assert forall|x: UserId| #[trigger] balance(after, x) == balance(before, x) by {
        lemma_total_pruned(last, owed_by(x));
        lemma_total_pruned(last, owed_to(x));
        assert(balance(last, x) == balance(before, x));
    }
    lemma_descends_pruned(before, last);
    lemma_descends_stable(users, before, last);
    lemma_pruned_stable(users, last);
    if no_member_mutual_debt(users, before) {
        lemma_member_debt_stable(users, before, after);
        lemma_pruned_no_member_cyclic_debt(users, last);
    }
    if no_cyclic_debt(last) {
        lemma_pruned_no_cyclic_debt(last);
    }
}

/// Nets the mutual debt of a group. Gives the ledgers that are left, the
/// users, and the changed ledgers for the store, oldest first.
pub fn detect_mutual_debt(users: Vec<User>, ledgers: Vec<Ledger>) -> (simplified: Result<
    (Vec<Ledger>, Vec<User>, Vec<Ledger>),
    DebtError,
>)
    ensures
        match simplified {
            Ok((left, members, written)) => {
                &&& members == users
                &&& mutual_debt_resolved(users@, ledgers@, left@, written@)
                &&& conserves(ledgers@, left@)
                &&& no_negative(written@)
                &&& no_negative(ledgers@) ==> all_positive(left@)
                &&& one_edge_per_pair(ledgers@) ==> no_member_mutual_debt(users@, left@)
                &&& well_formed(users@, ledgers@) ==> no_mutual_debt(left@) && members_only(
                    users@,
                    left@,
                )
            },
            Err(_) => false,
        },
{
    let mut graph = Graph::from(users, ledgers);
    match graph.resolve_bidirectional_debt() {
        Ok(_) => (),
        Err(e) => return Err(e),
    }
    let ghost netted = graph.ledgers@;
    graph.reset_nodes();
    proof {
        assert(graph.updates@.skip(0) =~= graph.updates@);
        lemma_mutual_debt_resolved(users@, ledgers@, netted, graph.updates@);
    }
    Ok((graph.ledgers, graph.users, graph.updates))
}

/// Cancels the circular debt of a group. Gives the ledgers that are left,
/// the users, and the changed ledgers for the store, oldest first.
pub fn detect_debt_cycles(users: Vec<User>, ledgers: Vec<Ledger>) -> (simplified: Result<
    (Vec<Ledger>, Vec<User>, Vec<Ledger>),
    DebtError,
>)
    ensures
        match simplified {
            Ok((left, members, written)) => {
                &&& members == users
                &&& cyclic_debt_resolved(users@, ledgers@, left@, written@)
                &&& conserves(ledgers@, left@)
                &&& no_negative(written@)
                &&& no_negative(ledgers@) ==> all_positive(left@)
                &&& no_mutual_debt(ledgers@) ==> no_mutual_debt(left@)
                &&& no_member_mutual_debt(users@, ledgers@) ==> no_member_mutual_debt(
                    users@,
                    left@,
                ) && no_member_cyclic_debt(users@, left@)
                &&& members_only(users@, ledgers@) && no_mutual_debt(ledgers@) ==> no_cyclic_debt(
                    left@,
                )
            },
            Err(_) => false,
        },
{
    let ghost count = ledgers.len();
    let mut graph = Graph::from(users, ledgers);
    match graph.resolve_cyclic_debt() {
        Ok(_) => (),
        Err(e) => return Err(e),
    }
    let ghost cancelled = graph.ledgers@;
    graph.reset_nodes();
    proof {
        assert(graph.updates@.skip(0) =~= graph.updates@);
        assert(ledgers@.len() == count);
        lemma_cyclic_debt_resolved(users@, ledgers@, cancelled, graph.updates@);
    }
    Ok((graph.ledgers, graph.users, graph.updates))
}

/// Simplifies the debt of a group: nets the mutual debt, then cancels the
/// circular debt of what is left. Gives the ledgers that are left, the users,
/// and the changed ledgers for the store, oldest first.
pub fn detect_debt(users: Vec<User>, ledgers: Vec<Ledger>) -> (simplified: Result<
    (Vec<Ledger>, Vec<User>, Vec<Ledger>),
    DebtError,
>)
    ensures
        match simplified {
            Ok((left, members, written)) => {
                &&& members == users
                &&& debt_resolved(users@, ledgers@, left@, written@)
                &&& conserves(ledgers@, left@)
                &&& no_negative(written@)
                &&& no_negative(ledgers@) ==> all_positive(left@)
                &&& one_edge_per_pair(ledgers@) ==> no_member_mutual_debt(users@, left@)
                    && no_member_cyclic_debt(users@, left@)
                &&& well_formed(users@, ledgers@) ==> no_mutual_debt(left@) && no_cyclic_debt(
                    left@,
                )
            },
            Err(_) => false,
        },
{
    let ghost count = ledgers.len();
    let (ledg, usrs, mut written) = match detect_mutual_debt(users, ledgers) {
        Ok(state) => state,
        Err(e) => return Err(e),
    };
    let ghost netted = ledg@;
    let ghost first = written@;
    let (final_ledg, final_usrs, mut second) = match detect_debt_cycles(usrs, ledg) {
        Ok(state) => state,
        Err(e) => return Err(e),
    };
    proof {
        assert(ledgers@.len() == count);
        assert(mutual_debt_resolved(users@, ledgers@, netted, first));
        assert(cyclic_debt_resolved(users@, netted, final_ledg@, second@));
        lemma_simplified_is_clean(users@, ledgers@, final_ledg@, first + second@);
    }
    written.append(&mut second);
    Ok((final_ledg, final_usrs, written))
}

/// Simplifying what a simplification has left changes nothing and puts
/// nothing down for the store: ledgers without mutual and without circular
/// debt among the users are a fixed point. This holds of ledgers of which no
/// ordered pair of parties has two edges.
pub proof fn lemma_simplified_is_fixed(
    users: Vec<User>,
    ledgers: Vec<Ledger>,
    once: Vec<Ledger>,
    written_once: Vec<Ledger>,
    twice: Vec<Ledger>,
    written_twice: Vec<Ledger>,
)
    requires
        one_edge_per_pair(ledgers@),
        debt_resolved(users@, ledgers@, once@, written_once@),
        debt_resolved(users@, once@, twice@, written_twice@),
    ensures
        twice@ == once@,
        written_twice@.len() == 0,
{
    assert(ledgers@.len() == ledgers.len());
    assert(once@.len() == once.len());
    lemma_simplified_is_clean(users@, ledgers@, once@, written_once@);
    lemma_clean_is_fixed(users@, once@, twice@, written_twice@);
}

/// What a simplification leaves conserves and has no settled ledger. It
/// holds no amount below or at zero where none was negative. Where no
/// ordered pair of parties had two edges, no two users owe each other in it
/// and no closed chain of debt among users runs through three parties or
/// more; where every borrower is a user besides, it holds no mutual and no
/// circular debt at all.
pub proof fn lemma_simplified_is_clean(
    users: Seq<User>,
    ledgers: Seq<Ledger>,
    left: Seq<Ledger>,
    written: Seq<Ledger>,
)
    requires
        ledgers.len() <= usize::MAX,
        debt_resolved(users, ledgers, left, written),
    ensures
        pruned(left) == left,
        conserves(ledgers, left),
        no_negative(ledgers) ==> all_positive(left),
        one_edge_per_pair(ledgers) ==> no_member_mutual_debt(users, left) && no_member_cyclic_debt(
            users,
            left,
        ),
        well_formed(users, ledgers) ==> no_mutual_debt(left) && no_cyclic_debt(left),
        no_negative(written),
{
    let (netted, first, second) = choose|
        netted: Seq<Ledger>,
        first: Seq<Ledger>,
        second: Seq<Ledger>,
    |
        {
            &&& #[trigger] mutual_debt_resolved(users, ledgers, netted, first)
            &&& #[trigger] cyclic_debt_resolved(users, netted, left, second)
            &&& written == first + second
        };
    lemma_mutual_debt_resolved(users, ledgers, netted, first);
    lemma_cyclic_debt_resolved(users, netted, left, second);
    lemma_conserves_trans(ledgers, netted, left);
    if no_negative(ledgers) {
        assert(no_negative(netted));
    }
}

/// Simplifying ledgers that have no settled ledger, no mutual debt between
/// users and no closed chain of debt among users through three parties or
/// more changes nothing and puts nothing down for the store.
pub proof fn lemma_clean_is_fixed(
    users: Seq<User>,
    ledgers: Seq<Ledger>,
    left: Seq<Ledger>,
    written: Seq<Ledger>,
)
    requires
        ledgers.len() <= usize::MAX,
        pruned(ledgers) == ledgers,
        no_member_mutual_debt(users, ledgers),
        no_member_cyclic_debt(users, ledgers),
        debt_resolved(users, ledgers, left, written),
    ensures
        left == ledgers,
        written.len() == 0,
{
    let (netted, first, second) = choose|
        netted: Seq<Ledger>,
        first: Seq<Ledger>,
        second: Seq<Ledger>,
    |
        {
            &&& #[trigger] mutual_debt_resolved(users, ledgers, netted, first)
            &&& #[trigger] cyclic_debt_resolved(users, netted, left, second)
            &&& written == first + second
        };
    lemma_mutual_debt_resolved(users, ledgers, netted, first);
    lemma_cyclic_debt_resolved(users, netted, left, second);
    assert(first + second =~= Seq::<Ledger>::empty());
}

} // verus!
