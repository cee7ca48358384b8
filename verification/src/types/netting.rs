use vstd::prelude::*;
use crate::types::balance::comes_from;
use crate::types::balance::descends;
use crate::types::balance::has_origin;
use crate::types::balance::lemma_net_settles;
use crate::types::balance::lemma_pruned_origin;
use crate::types::balance::origin;
use crate::types::balance::pruned;
use crate::types::balance::lemma_settles_trans;
use crate::types::balance::reduces;
use crate::types::balance::settles;
use crate::types::graph::known;
use crate::types::ledger::Ledger;
use crate::types::user::User;

verus! {

pub open spec fn min(a: int, b: int) -> int {
    if a <= b {
        a
    } else {
        b
    }
}

/// Some edge runs against the ledger at `i`.
pub open spec fn opposed(ledgers: Seq<Ledger>, i: int) -> bool {
    exists|j: int|
        0 <= j < ledgers.len() && (#[trigger] ledgers[j]).is_edge() && ledgers[j].opposes(
            ledgers[i],
        )
}

/// The ledger at `i` takes part in no mutual debt: it is no edge, or no edge
/// runs against it.
pub open spec fn unopposed(ledgers: Seq<Ledger>, i: int) -> bool {
    !(ledgers[i].is_edge() && opposed(ledgers, i))
}

/// No two parties owe each other.
pub open spec fn no_mutual_debt(ledgers: Seq<Ledger>) -> bool {
    forall|i: int, j: int|
        0 <= i < ledgers.len() && 0 <= j < ledgers.len() && (#[trigger] ledgers[i]).is_edge() && (
        #[trigger] ledgers[j]).is_edge() ==> !ledgers[i].opposes(ledgers[j])
}

/// No two edges run from the same borrower to the same lender.
pub open spec fn one_edge_per_pair(ledgers: Seq<Ledger>) -> bool {
    forall|i: int, j: int|
        0 <= i < j < ledgers.len() && (#[trigger] ledgers[i]).is_edge() && (
        #[trigger] ledgers[j]).is_edge() ==> !(ledgers[i].borrower == ledgers[j].borrower
            && ledgers[i].owes == ledgers[j].owes)
}

/// Whoever owes on an edge is one of the users.
pub open spec fn members_only(users: Seq<User>, ledgers: Seq<Ledger>) -> bool {
    forall|i: int|
        0 <= i < ledgers.len() && (#[trigger] ledgers[i]).is_edge() ==> known(
            users,
            ledgers[i].borrower,
        )
}

/// What the store has to uphold of the ledgers of a group: the borrower of
/// every edge is a member, and no ordered pair of parties has two edges.
pub open spec fn well_formed(users: Seq<User>, ledgers: Seq<Ledger>) -> bool {
    members_only(users, ledgers) && one_edge_per_pair(ledgers)
}

/// The ledger is an edge on which a user owes.
pub open spec fn member_edge(users: Seq<User>, ledger: Ledger) -> bool {
    ledger.is_edge() && known(users, ledger.borrower)
}

/// Some edge on which a user owes runs against the ledger at `i`.
pub open spec fn opposed_by_member(users: Seq<User>, ledgers: Seq<Ledger>, i: int) -> bool {
    exists|j: int|
        0 <= j < ledgers.len() && member_edge(users, #[trigger] ledgers[j])
            && ledgers[j].opposes(ledgers[i])
}

/// The ledger at `i` takes part in no mutual debt between users.
pub open spec fn settled_among_members(users: Seq<User>, ledgers: Seq<Ledger>, i: int) -> bool {
    !(member_edge(users, ledgers[i]) && opposed_by_member(users, ledgers, i))
}

/// No two users owe each other.
pub open spec fn no_member_mutual_debt(users: Seq<User>, ledgers: Seq<Ledger>) -> bool {
    forall|i: int, j: int|
        0 <= i < ledgers.len() && 0 <= j < ledgers.len() && member_edge(
            users,
            #[trigger] ledgers[i],
        ) && member_edge(users, #[trigger] ledgers[j]) ==> !ledgers[i].opposes(ledgers[j])
}

/// A ledger that takes part in no mutual debt between users takes part in
/// none after amounts have gone down.
pub proof fn lemma_member_settled_stable(
    users: Seq<User>,
    before: Seq<Ledger>,
    after: Seq<Ledger>,
    i: int,
)
    requires
        reduces(before, after),
        0 <= i < before.len(),
        settled_among_members(users, before, i),
    ensures
        settled_among_members(users, after, i),
{
    if member_edge(users, after[i]) && opposed_by_member(users, after, i) {
        let j = choose|j: int|
            0 <= j < after.len() && member_edge(users, #[trigger] after[j]) && after[j].opposes(
                after[i],
            );
        lemma_edge_was_edge(before, after, i);
        lemma_edge_was_edge(before, after, j);
        assert(member_edge(users, before[j]) && before[j].opposes(before[i]));
    }
}

/// Where every ledger takes part in no mutual debt between users, no two
/// users owe each other.
pub proof fn lemma_all_member_settled(users: Seq<User>, ledgers: Seq<Ledger>)
    requires
        forall|i: int| 0 <= i < ledgers.len() ==> settled_among_members(users, ledgers, i),
    ensures
        no_member_mutual_debt(users, ledgers),
{
    assert forall|i: int, j: int|
        0 <= i < ledgers.len() && 0 <= j < ledgers.len() && member_edge(
            users,
            #[trigger] ledgers[i],
        ) && member_edge(users, #[trigger] ledgers[j]) implies !ledgers[i].opposes(ledgers[j]) by {
        if ledgers[i].opposes(ledgers[j]) {
            assert(settled_among_members(users, ledgers, j));
            assert(ledgers[i].opposes(ledgers[j]));
            assert(opposed_by_member(users, ledgers, j));
        }
    }
}

/// Where whoever owes on an edge is a user, what holds among users holds of
/// all.
pub proof fn lemma_members_are_all(users: Seq<User>, ledgers: Seq<Ledger>)
    requires
        members_only(users, ledgers),
    ensures
        no_member_mutual_debt(users, ledgers) ==> no_mutual_debt(ledgers),
        forall|i: int|
            0 <= i < ledgers.len() && settled_among_members(users, ledgers, i) ==> #[trigger] unopposed(
                ledgers,
                i,
            ),
{
    assert forall|i: int|
        0 <= i < ledgers.len() && settled_among_members(users, ledgers, i) implies #[trigger] unopposed(
        ledgers,
        i,
    ) by {
        if ledgers[i].is_edge() && opposed(ledgers, i) {
            let j = choose|j: int|
                0 <= j < ledgers.len() && (#[trigger] ledgers[j]).is_edge() && ledgers[j].opposes(
                    ledgers[i],
                );
            assert(member_edge(users, ledgers[j]));
        }
    }
}

/// That no two users owe each other keeps holding while amounts go down,
/// when settled ledgers are dropped, and of ledgers that come from the
/// ledgers.
pub proof fn lemma_member_debt_stable(users: Seq<User>, before: Seq<Ledger>, after: Seq<Ledger>)
    requires
        no_member_mutual_debt(users, before),
        descends(before, after),
    ensures
        no_member_mutual_debt(users, after),
{
    assert forall|a: int, b: int|
        0 <= a < after.len() && 0 <= b < after.len() && member_edge(users, #[trigger] after[a])
            && member_edge(users, #[trigger] after[b]) implies !after[a].opposes(after[b]) by {
        assert(has_origin(before, after[a]) && has_origin(before, after[b]));
        let i = choose|i: int| 0 <= i < before.len() && #[trigger] comes_from(before[i], after[a]);
        let j = choose|j: int| 0 <= j < before.len() && #[trigger] comes_from(before[j], after[b]);
        assert(member_edge(users, before[i]) && member_edge(users, before[j]));
    }
}

/// A ledger that had no edge against it in `before` has kept its amount.
pub open spec fn unopposed_kept(before: Seq<Ledger>, after: Seq<Ledger>) -> bool {
    forall|i: int|
        0 <= i < before.len() && unopposed(before, i) ==> (#[trigger] after[i]).sum
            == before[i].sum
}

/// Every two edges of `before` that ran against each other have both or
/// neither gone down by the smaller of their two amounts.
pub open spec fn pairs_in_step(before: Seq<Ledger>, after: Seq<Ledger>) -> bool {
    forall|i: int, j: int|
        0 <= i < before.len() && 0 <= j < before.len() && (#[trigger] before[i]).is_edge() && (
        #[trigger] before[j]).is_edge() && before[i].opposes(before[j]) ==> {
            let m = min(before[i].sum as int, before[j].sum as int);
            ||| after[i].sum == before[i].sum && after[j].sum == before[j].sum
            ||| after[i].sum == before[i].sum - m && after[j].sum == before[j].sum - m
        }
}

/// Every two edges of `before` that ran against each other have both gone
/// down by the smaller of their two amounts.
pub open spec fn pairs_netted(before: Seq<Ledger>, after: Seq<Ledger>) -> bool {
    forall|i: int, j: int|
        0 <= i < before.len() && 0 <= j < before.len() && (#[trigger] before[i]).is_edge() && (
        #[trigger] before[j]).is_edge() && before[i].opposes(before[j]) ==> after[i].sum
            == before[i].sum - min(before[i].sum as int, before[j].sum as int)
}

/// What one netting does to the ledgers: the edges at `i` and `j` both go
/// down by the smaller of their amounts.
pub open spec fn net(ledgers: Seq<Ledger>, i: int, j: int) -> Seq<Ledger> {
    let m = min(ledgers[i].sum as int, ledgers[j].sum as int);
    ledgers.update(i, ledgers[i].with_sum(ledgers[i].sum - m)).update(
        j,
        ledgers[j].with_sum(ledgers[j].sum - m),
    )
}

/// The ledgers after the pairs of places `pairs` have been netted one after
/// the other.
pub open spec fn net_all(ledgers: Seq<Ledger>, pairs: Seq<(int, int)>) -> Seq<Ledger>
    decreases pairs.len(),
{
    if pairs.len() == 0 {
        ledgers
    } else {
        net(net_all(ledgers, pairs.drop_last()), pairs.last().0, pairs.last().1)
    }
}

/// What netting the pairs `pairs` one after the other puts down for the
/// store: after each netting, the two ledgers as they then are.
pub open spec fn net_writes(ledgers: Seq<Ledger>, pairs: Seq<(int, int)>) -> Seq<Ledger>
    decreases pairs.len(),
{
    if pairs.len() == 0 {
        Seq::empty()
    } else {
        net_writes(ledgers, pairs.drop_last()).push(
            net_all(ledgers, pairs)[pairs.last().0],
        ).push(net_all(ledgers, pairs)[pairs.last().1])
    }
}

/// Each of the pairs `pairs` is, when its turn comes, a pair of edges that
/// run against each other.
pub open spec fn all_opposed(ledgers: Seq<Ledger>, pairs: Seq<(int, int)>) -> bool
    decreases pairs.len(),
{
    pairs.len() == 0 || {
        let cur = net_all(ledgers, pairs.drop_last());
        let (i, j) = pairs.last();
        &&& all_opposed(ledgers, pairs.drop_last())
        &&& 0 <= i < cur.len()
        &&& 0 <= j < cur.len()
        &&& cur[i].is_edge()
        &&& cur[j].is_edge()
        &&& cur[i].opposes(cur[j])
    }
}

/// `after` comes from `before` by netting pairs of edges that run against
/// each other, one pair after the other and each by the smaller of its two
/// amounts, and `written` is what the nettings put down for the store.
pub open spec fn nets(before: Seq<Ledger>, after: Seq<Ledger>, written: Seq<Ledger>) -> bool {
    exists|pairs: Seq<(int, int)>|
        #[trigger] all_opposed(before, pairs) && after == net_all(before, pairs) && written
            == net_writes(before, pairs)
}

/// Netting nothing changes nothing and writes nothing.
pub proof fn lemma_nets_begins(start: Seq<Ledger>)
    ensures
        nets(start, start, Seq::<Ledger>::empty()),
{
    let pairs = Seq::<(int, int)>::empty();
    assert(all_opposed(start, pairs));
    assert(start == net_all(start, pairs));
    assert(Seq::<Ledger>::empty() == net_writes(start, pairs));
}

/// One more netting after a run of nettings.
pub proof fn lemma_nets_next(start: Seq<Ledger>, cur: Seq<Ledger>, written: Seq<Ledger>, i: int, j: int)
    requires
        nets(start, cur, written),
        0 <= i < cur.len(),
        0 <= j < cur.len(),
        cur[i].is_edge(),
        cur[j].is_edge(),
        cur[i].opposes(cur[j]),
    ensures
        nets(start, net(cur, i, j), written.push(net(cur, i, j)[i]).push(net(cur, i, j)[j])),
{
    let pairs = choose|pairs: Seq<(int, int)>|
        #[trigger] all_opposed(start, pairs) && cur == net_all(start, pairs) && written
            == net_writes(start, pairs);
    let longer = pairs.push((i, j));
    assert(longer.drop_last() =~= pairs);
    assert(longer.last() == (i, j));
    assert(net_all(start, longer) == net(cur, i, j));
    assert(all_opposed(start, longer));
}

/// An edge of a reduced sequence was an edge before.
pub proof fn lemma_edge_was_edge(before: Seq<Ledger>, after: Seq<Ledger>, i: int)
    requires
        reduces(before, after),
        0 <= i < before.len(),
        after[i].is_edge(),
    ensures
        before[i].is_edge(),
        before[i].borrower == after[i].borrower,
        before[i].owes == after[i].owes,
{
}

/// What the store upholds keeps holding while amounts go down.
pub proof fn lemma_well_formed_stable(users: Seq<User>, before: Seq<Ledger>, after: Seq<Ledger>)
    requires
        reduces(before, after),
    ensures
        members_only(users, before) ==> members_only(users, after),
        one_edge_per_pair(before) ==> one_edge_per_pair(after),
        no_mutual_debt(before) ==> no_mutual_debt(after),
{
    if members_only(users, before) {
        assert forall|i: int| 0 <= i < after.len() && (#[trigger] after[i]).is_edge() implies known(
            users,
            after[i].borrower,
        ) by {
            lemma_edge_was_edge(before, after, i);
        }
    }
    if one_edge_per_pair(before) {
        assert forall|i: int, j: int|
            0 <= i < j < after.len() && (#[trigger] after[i]).is_edge() && (
            #[trigger] after[j]).is_edge() implies !(after[i].borrower == after[j].borrower
            && after[i].owes == after[j].owes) by {
            lemma_edge_was_edge(before, after, i);
            lemma_edge_was_edge(before, after, j);
        }
    }
    if no_mutual_debt(before) {
        assert forall|i: int, j: int|
            0 <= i < after.len() && 0 <= j < after.len() && (#[trigger] after[i]).is_edge() && (
            #[trigger] after[j]).is_edge() implies !after[i].opposes(after[j]) by {
            lemma_edge_was_edge(before, after, i);
            lemma_edge_was_edge(before, after, j);
        }
    }
}

/// Dropping the settled ledgers brings no mutual debt about and no edge
/// whose borrower is a stranger.
pub proof fn lemma_pruned_stable(users: Seq<User>, ledgers: Seq<Ledger>)
    ensures
        members_only(users, ledgers) ==> members_only(users, pruned(ledgers)),
        no_mutual_debt(ledgers) ==> no_mutual_debt(pruned(ledgers)),
{
    let kept = pruned(ledgers);
    if members_only(users, ledgers) {
        assert forall|k: int| 0 <= k < kept.len() && (#[trigger] kept[k]).is_edge() implies known(
            users,
            kept[k].borrower,
        ) by {
            lemma_pruned_origin(ledgers, k);
            assert(ledgers[origin(ledgers, k)].is_edge());
        }
    }
    if no_mutual_debt(ledgers) {
        assert forall|i: int, j: int|
            0 <= i < kept.len() && 0 <= j < kept.len() && (#[trigger] kept[i]).is_edge() && (
            #[trigger] kept[j]).is_edge() implies !kept[i].opposes(kept[j]) by {
            lemma_pruned_origin(ledgers, i);
            lemma_pruned_origin(ledgers, j);
            assert(ledgers[origin(ledgers, i)].is_edge());
            assert(ledgers[origin(ledgers, j)].is_edge());
        }
    }
}

/// Ledgers that come from ledgers with members for borrowers and without
/// mutual debt have members for borrowers and no mutual debt.
pub proof fn lemma_descends_stable(users: Seq<User>, before: Seq<Ledger>, after: Seq<Ledger>)
    requires
        descends(before, after),
    ensures
        members_only(users, before) ==> members_only(users, after),
        no_mutual_debt(before) ==> no_mutual_debt(after),
{
    if members_only(users, before) {
        assert forall|k: int| 0 <= k < after.len() && (#[trigger] after[k]).is_edge() implies known(
            users,
            after[k].borrower,
        ) by {
            assert(has_origin(before, after[k]));
            let i = choose|i: int|
                0 <= i < before.len() && #[trigger] comes_from(before[i], after[k]);
            assert(before[i].is_edge());
        }
    }
    if no_mutual_debt(before) {
        assert forall|a: int, b: int|
            0 <= a < after.len() && 0 <= b < after.len() && (#[trigger] after[a]).is_edge() && (
            #[trigger] after[b]).is_edge() implies !after[a].opposes(after[b]) by {
            assert(has_origin(before, after[a]) && has_origin(before, after[b]));
            let i = choose|i: int|
                0 <= i < before.len() && #[trigger] comes_from(before[i], after[a]);
            let j = choose|j: int|
                0 <= j < before.len() && #[trigger] comes_from(before[j], after[b]);
            assert(before[i].is_edge() && before[j].is_edge());
        }
    }
}

/// One netting, made on ledgers that have come from `start` by nettings,
/// keeps everything that nettings keep.
pub proof fn lemma_net_step(start: Seq<Ledger>, cur: Seq<Ledger>, i: int, j: int)
    requires
        settles(start, cur),
        unopposed_kept(start, cur),
        one_edge_per_pair(start) ==> pairs_in_step(start, cur),
        0 <= i < cur.len(),
        0 <= j < cur.len(),
        cur[i].is_edge(),
        cur[j].is_edge(),
        cur[i].opposes(cur[j]),
    ensures
        reduces(cur, net(cur, i, j)),
        settles(start, net(cur, i, j)),
        unopposed_kept(start, net(cur, i, j)),
        one_edge_per_pair(start) ==> pairs_in_step(start, net(cur, i, j)),
        one_edge_per_pair(start) ==> unopposed(net(cur, i, j), i) && unopposed(net(cur, i, j), j),
{
    let next = net(cur, i, j);
    let m = min(cur[i].sum as int, cur[j].sum as int);
    lemma_net_settles(cur, i, j, m);
    lemma_settles_trans(start, cur, next);
    lemma_edge_was_edge(start, cur, i);
    lemma_edge_was_edge(start, cur, j);
    assert(i != j);
    assert(start[j].opposes(start[i]) && start[i].opposes(start[j]));
    assert forall|a: int| 0 <= a < start.len() && unopposed(start, a) implies (
    #[trigger] next[a]).sum == start[a].sum by {
        assert(cur[a].sum == start[a].sum);
        assert(a != i && a != j);
    }
    if one_edge_per_pair(start) {
        assert(cur[i].sum == start[i].sum && cur[j].sum == start[j].sum);
        assert forall|a: int, b: int|
            0 <= a < start.len() && 0 <= b < start.len() && (#[trigger] start[a]).is_edge() && (
            #[trigger] start[b]).is_edge() && start[a].opposes(start[b]) implies {
            let m = min(start[a].sum as int, start[b].sum as int);
            ||| next[a].sum == start[a].sum && next[b].sum == start[b].sum
            ||| next[a].sum == start[a].sum - m && next[b].sum == start[b].sum - m
        } by {
            if a == i {
                assert(b == j) by {
                    if b < j {
                        assert(!(start[b].borrower == start[j].borrower && start[b].owes
                            == start[j].owes));
                    } else if j < b {
                        assert(!(start[j].borrower == start[b].borrower && start[j].owes
                            == start[b].owes));
                    }
                }
            } else if a == j {
                assert(b == i) by {
                    if b < i {
                        assert(!(start[b].borrower == start[i].borrower && start[b].owes
                            == start[i].owes));
                    } else if i < b {
                        assert(!(start[i].borrower == start[b].borrower && start[i].owes
                            == start[b].owes));
                    }
                }
            } else if b == i {
                assert(a == j) by {
                    if a < j {
                        assert(!(start[a].borrower == start[j].borrower && start[a].owes
                            == start[j].owes));
                    } else if j < a {
                        assert(!(start[j].borrower == start[a].borrower && start[j].owes
                            == start[a].owes));
                    }
                }
            } else if b == j {
                assert(a == i) by {
                    if a < i {
                        assert(!(start[a].borrower == start[i].borrower && start[a].owes
                            == start[i].owes));
                    } else if i < a {
                        assert(!(start[i].borrower == start[a].borrower && start[i].owes
                            == start[a].owes));
                    }
                }
            } else {
                assert(next[a] == cur[a] && next[b] == cur[b]);
            }
        }
        lemma_net_leaves_unopposed(start, cur, i, j);
        lemma_net_leaves_unopposed(start, cur, j, i);
        assert(net(cur, j, i) =~= next);
    }
}

/// After a netting no edge runs against what is left of the first of the two
/// ledgers, where no ordered pair had two edges.
proof fn lemma_net_leaves_unopposed(start: Seq<Ledger>, cur: Seq<Ledger>, i: int, j: int)
    requires
        reduces(start, cur),
        one_edge_per_pair(start),
        0 <= i < cur.len(),
        0 <= j < cur.len(),
        cur[i].is_edge(),
        cur[j].is_edge(),
        cur[i].opposes(cur[j]),
    ensures
        unopposed(net(cur, i, j), i),
{
    let next = net(cur, i, j);
    assert(i != j);
    if next[i].is_edge() && opposed(next, i) {
        let b = choose|b: int|
            0 <= b < next.len() && (#[trigger] next[b]).is_edge() && next[b].opposes(next[i]);
        assert(next[j].sum == 0);
        assert(b != j && b != i);
        assert(next[b] == cur[b]);
        lemma_edge_was_edge(start, cur, b);
        lemma_edge_was_edge(start, cur, j);
        if b < j {
            assert(!(start[b].borrower == start[j].borrower && start[b].owes == start[j].owes));
        } else {
            assert(!(start[j].borrower == start[b].borrower && start[j].owes == start[b].owes));
        }
    }
}

/// Where every edge takes part in no mutual debt, nobody owes each other,
/// and every pair that was in step has been netted.
pub proof fn lemma_all_unopposed(start: Seq<Ledger>, cur: Seq<Ledger>)
    requires
        reduces(start, cur),
        forall|i: int| 0 <= i < cur.len() ==> unopposed(cur, i),
    ensures
        no_mutual_debt(cur),
        pairs_in_step(start, cur) ==> pairs_netted(start, cur),
{
    assert forall|i: int, j: int|
        0 <= i < cur.len() && 0 <= j < cur.len() && (#[trigger] cur[i]).is_edge() && (
        #[trigger] cur[j]).is_edge() implies !cur[i].opposes(cur[j]) by {
        if cur[i].opposes(cur[j]) {
            assert(unopposed(cur, j));
            assert(cur[i].opposes(cur[j]));
            assert(opposed(cur, j));
        }
    }
    if pairs_in_step(start, cur) {
        assert forall|i: int, j: int|
            0 <= i < start.len() && 0 <= j < start.len() && (#[trigger] start[i]).is_edge() && (
            #[trigger] start[j]).is_edge() && start[i].opposes(start[j]) implies cur[i].sum
            == start[i].sum - min(start[i].sum as int, start[j].sum as int) by {
            if cur[i].sum == start[i].sum && cur[j].sum == start[j].sum {
                assert(cur[i].is_edge() && cur[j].is_edge());
                assert(cur[i].opposes(cur[j]));
            }
        }
    }
}

} // verus!
