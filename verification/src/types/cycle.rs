use vstd::prelude::*;
use crate::types::balance::balance;
use crate::types::balance::lemma_pruned_origin;
use crate::types::balance::lemma_total_update;
use crate::types::balance::origin;
use crate::types::balance::pruned;
use crate::types::balance::owed_by;
use crate::types::balance::owed_to;
use crate::types::balance::reduces;
use crate::types::balance::settles;
use crate::types::graph::known;
use crate::types::ledger::Ledger;
use crate::types::netting::member_edge;
use crate::types::netting::no_member_mutual_debt;
use crate::types::user::User;
use crate::types::netting::min;
use crate::types::netting::no_mutual_debt;
use crate::types::update::lemma_replay_push;
use crate::types::update::lemma_unique_ids_stable;
use crate::types::update::replay;
use crate::types::update::unique_ids;
use crate::types::user::UserId;

verus! {

/// `trail` holds the places of edges that follow one another, each owed by
/// the party that the one before is owed to, and no party owes on two of
/// them.
pub open spec fn is_trail(ledgers: Seq<Ledger>, trail: Seq<usize>) -> bool {
    &&& forall|i: int|
        0 <= i < trail.len() ==> (#[trigger] trail[i]) < ledgers.len()
            && ledgers[trail[i] as int].is_edge()
    &&& forall|i: int|
        0 <= i < trail.len() - 1 ==> ledgers[(#[trigger] trail[i]) as int].owes
            == ledgers[trail[i + 1] as int].borrower
    &&& forall|i: int, j: int|
        0 <= i < j < trail.len() ==> ledgers[(#[trigger] trail[i]) as int].borrower
            != ledgers[(#[trigger] trail[j]) as int].borrower
}

/// `trail` is a closed chain of debt: a trail whose last edge is owed to the
/// party that owes on the first.
pub open spec fn is_cycle(ledgers: Seq<Ledger>, trail: Seq<usize>) -> bool {
    &&& trail.len() > 0
    &&& is_trail(ledgers, trail)
    &&& ledgers[trail.last() as int].owes == ledgers[trail[0] as int].borrower
}

/// No closed chain of debt runs through three parties or more.
pub open spec fn no_cyclic_debt(ledgers: Seq<Ledger>) -> bool {
    forall|trail: Seq<usize>| #[trigger] is_cycle(ledgers, trail) ==> trail.len() <= 2
}

/// No closed chain of debt begins with an edge on which `x` owes.
pub open spec fn no_cycle_from(ledgers: Seq<Ledger>, x: UserId) -> bool {
    forall|trail: Seq<usize>| #[trigger]
        is_cycle(ledgers, trail) ==> ledgers[trail[0] as int].borrower != x
}

/// The least amount on the edges of `trail`.
pub open spec fn least(ledgers: Seq<Ledger>, trail: Seq<usize>) -> int
    decreases trail.len(),
{
    if trail.len() == 0 {
        i32::MAX as int
    } else {
        min(least(ledgers, trail.drop_last()), ledgers[trail.last() as int].sum as int)
    }
}

/// The place `i` is among the first `done` places of `trail`.
pub open spec fn on_trail(trail: Seq<usize>, done: int, i: int) -> bool {
    exists|t: int| 0 <= t < done && t < trail.len() && (#[trigger] trail[t]) as int == i
}

/// `after` is `before` with `amount` taken off the first `done` edges of
/// `trail`.
pub open spec fn taken_off(
    before: Seq<Ledger>,
    after: Seq<Ledger>,
    trail: Seq<usize>,
    done: int,
    amount: int,
) -> bool {
    &&& after.len() == before.len()
    &&& forall|i: int|
        0 <= i < before.len() ==> #[trigger] after[i] == if on_trail(trail, done, i) {
            before[i].with_sum(before[i].sum - amount)
        } else {
            before[i]
        }
}

/// `after` is `before` with the cycle `trail` cancelled: the least amount on
/// the cycle is taken off each of its edges.
pub open spec fn cancelled(before: Seq<Ledger>, after: Seq<Ledger>, trail: Seq<usize>) -> bool {
    taken_off(before, after, trail, trail.len() as int, least(before, trail))
}

/// The ledgers after the closed chain of debt `trail` has been cancelled:
/// the least amount on the chain is taken off each of its edges.
pub open spec fn cancel(ledgers: Seq<Ledger>, trail: Seq<usize>) -> Seq<Ledger> {
    Seq::new(
        ledgers.len(),
        |i: int|
            if on_trail(trail, trail.len() as int, i) {
                ledgers[i].with_sum(ledgers[i].sum - least(ledgers, trail))
            } else {
                ledgers[i]
            },
    )
}

/// The ledgers after the chains `trails` have been cancelled one after the
/// other, the settled ledgers being dropped after each cancellation.
pub open spec fn cancel_all(ledgers: Seq<Ledger>, trails: Seq<Seq<usize>>) -> Seq<Ledger>
    decreases trails.len(),
{
    if trails.len() == 0 {
        ledgers
    } else {
        pruned(cancel(cancel_all(ledgers, trails.drop_last()), trails.last()))
    }
}

/// What cancelling the chains `trails` one after the other puts down for the
/// store: after each cancellation, the ledgers of its chain as they then
/// are, the settled ones too, in the order of the chain.
pub open spec fn cancel_writes(ledgers: Seq<Ledger>, trails: Seq<Seq<usize>>) -> Seq<Ledger>
    decreases trails.len(),
{
    if trails.len() == 0 {
        Seq::empty()
    } else {
        cancel_writes(ledgers, trails.drop_last()) + Seq::new(
            trails.last().len(),
            |d: int|
                cancel(cancel_all(ledgers, trails.drop_last()), trails.last())[trails.last()[d] as int],
        )
    }
}

/// Each of the chains `trails` is, when its turn comes, a closed chain of
/// debt through more than two parties.
pub open spec fn all_cycles(ledgers: Seq<Ledger>, trails: Seq<Seq<usize>>) -> bool
    decreases trails.len(),
{
    trails.len() == 0 || (all_cycles(ledgers, trails.drop_last()) && is_cycle(
        cancel_all(ledgers, trails.drop_last()),
        trails.last(),
    ) && trails.last().len() > 2)
}

/// `after` comes from `before` by cancelling closed chains of debt through
/// more than two parties, one after the other and each by the least amount
/// on it, the settled ledgers being dropped after each cancellation, and
/// `written` is what the cancellations put down for the store.
pub open spec fn cancels(before: Seq<Ledger>, after: Seq<Ledger>, written: Seq<Ledger>) -> bool {
    exists|trails: Seq<Seq<usize>>|
        #[trigger] all_cycles(before, trails) && after == cancel_all(before, trails) && written
            == cancel_writes(before, trails)
}

/// Cancelling nothing changes nothing and writes nothing.
pub proof fn lemma_cancels_begins(start: Seq<Ledger>)
    ensures
        cancels(start, start, Seq::<Ledger>::empty()),
{
    let trails = Seq::<Seq<usize>>::empty();
    assert(all_cycles(start, trails));
    assert(start == cancel_all(start, trails));
    assert(Seq::<Ledger>::empty() == cancel_writes(start, trails));
}

/// One more cancellation after a run of cancellations.
pub proof fn lemma_cancels_next(
    start: Seq<Ledger>,
    cur: Seq<Ledger>,
    written: Seq<Ledger>,
    trail: Seq<usize>,
    next: Seq<Ledger>,
    fresh: Seq<Ledger>,
)
    requires
        cancels(start, cur, written),
        is_cycle(cur, trail),
        trail.len() > 2,
        cancelled(cur, next, trail),
        fresh.len() == trail.len(),
        forall|d: int| 0 <= d < trail.len() ==> #[trigger] fresh[d] == next[trail[d] as int],
    ensures
        cancels(start, pruned(next), written + fresh),
{
    let trails = choose|trails: Seq<Seq<usize>>|
        #[trigger] all_cycles(start, trails) && cur == cancel_all(start, trails) && written
            == cancel_writes(start, trails);
    let longer = trails.push(trail);
    assert(longer.drop_last() =~= trails);
    assert(longer.last() == trail);
    assert(next =~= cancel(cur, trail));
    assert(cancel_all(start, longer) == pruned(next));
    assert(fresh =~= Seq::new(trail.len(), |d: int| next[trail[d] as int]));
    assert(all_cycles(start, longer));
}

/// A user owes on every edge of `trail`.
pub open spec fn members_on(users: Seq<User>, ledgers: Seq<Ledger>, trail: Seq<usize>) -> bool {
    forall|t: int|
        0 <= t < trail.len() ==> known(users, ledgers[(#[trigger] trail[t]) as int].borrower)
}

/// `trail` is a closed chain of debt among users.
pub open spec fn member_cycle(users: Seq<User>, ledgers: Seq<Ledger>, trail: Seq<usize>) -> bool {
    is_cycle(ledgers, trail) && members_on(users, ledgers, trail)
}

/// No closed chain of debt among users begins with an edge on which `x`
/// owes.
pub open spec fn no_member_cycle_from(users: Seq<User>, ledgers: Seq<Ledger>, x: UserId) -> bool {
    forall|trail: Seq<usize>| #[trigger]
        member_cycle(users, ledgers, trail) ==> ledgers[trail[0] as int].borrower != x
}

/// No closed chain of debt among users runs through three parties or more.
pub open spec fn no_member_cyclic_debt(users: Seq<User>, ledgers: Seq<Ledger>) -> bool {
    forall|trail: Seq<usize>| #[trigger] member_cycle(users, ledgers, trail) ==> trail.len() <= 2
}

/// The user `x` owes another user on an edge, and that user owes `x` on
/// another.
pub open spec fn in_member_mutual_debt(users: Seq<User>, ledgers: Seq<Ledger>, x: UserId) -> bool {
    exists|i: int, j: int|
        0 <= i < ledgers.len() && 0 <= j < ledgers.len() && member_edge(
            users,
            #[trigger] ledgers[i],
        ) && member_edge(users, #[trigger] ledgers[j]) && ledgers[i].borrower == x
            && ledgers[i].opposes(ledgers[j])
}

/// A closed chain of debt among users begins only at a user who stands in a
/// mutual debt with another user.
pub open spec fn member_cycles_rest(users: Seq<User>, ledgers: Seq<Ledger>) -> bool {
    forall|x: UserId| #[trigger]
        no_member_cycle_from(users, ledgers, x) || in_member_mutual_debt(users, ledgers, x)
}

/// Where closed chains among users begin only at users in mutual debt and
/// no two users owe each other, there is no closed chain among users.
pub proof fn lemma_no_member_rest(users: Seq<User>, ledgers: Seq<Ledger>)
    requires
        member_cycles_rest(users, ledgers),
        no_member_mutual_debt(users, ledgers),
    ensures
        no_member_cyclic_debt(users, ledgers),
{
    assert forall|trail: Seq<usize>| #[trigger]
        member_cycle(users, ledgers, trail) implies trail.len() <= 2 by {
        let x = ledgers[trail[0] as int].borrower;
        assert(no_member_cycle_from(users, ledgers, x) || in_member_mutual_debt(users, ledgers, x));
    }
}

/// A closed chain among users through at most two parties puts the user it
/// begins at in a mutual debt with another user.
pub proof fn lemma_short_member_cycle(users: Seq<User>, ledgers: Seq<Ledger>, trail: Seq<usize>)
    requires
        member_cycle(users, ledgers, trail),
        trail.len() <= 2,
    ensures
        in_member_mutual_debt(users, ledgers, ledgers[trail[0] as int].borrower),
        in_mutual_debt(ledgers, ledgers[trail[0] as int].borrower),
{
    let a = trail[0] as int;
    assert(ledgers[a].is_edge());
    if trail.len() == 2 {
        let b = trail[1] as int;
        assert(ledgers[b].is_edge());
        assert(ledgers[trail[0] as int].owes == ledgers[trail[0int + 1] as int].borrower);
        assert(ledgers[a].opposes(ledgers[b]));
        assert(member_edge(users, ledgers[a]) && member_edge(users, ledgers[b]));
    }
}

/// Where whoever owes on an edge is a user, every closed chain of debt is
/// one among users.
pub proof fn lemma_members_are_all_cycles(users: Seq<User>, ledgers: Seq<Ledger>)
    requires
        forall|i: int|
            0 <= i < ledgers.len() && (#[trigger] ledgers[i]).is_edge() ==> known(
                users,
                ledgers[i].borrower,
            ),
    ensures
        forall|trail: Seq<usize>| #[trigger]
            is_cycle(ledgers, trail) ==> member_cycle(users, ledgers, trail),
        no_member_cyclic_debt(users, ledgers) ==> no_cyclic_debt(ledgers),
        member_cycles_rest(users, ledgers) ==> cycles_rest_on_mutual_debt(ledgers),
        forall|x: UserId| #[trigger]
            no_member_cycle_from(users, ledgers, x) ==> no_cycle_from(ledgers, x),
{
    assert forall|trail: Seq<usize>| #[trigger] is_cycle(ledgers, trail) implies member_cycle(
        users,
        ledgers,
        trail,
    ) by {
        assert forall|t: int| 0 <= t < trail.len() implies known(
            users,
            ledgers[(#[trigger] trail[t]) as int].borrower,
        ) by {
            assert(ledgers[trail[t] as int].is_edge());
        }
    }
    if member_cycles_rest(users, ledgers) {
        assert forall|x: UserId| #[trigger]
            no_cycle_from(ledgers, x) || in_mutual_debt(ledgers, x) by {
            assert(no_member_cycle_from(users, ledgers, x) || in_member_mutual_debt(
                users,
                ledgers,
                x,
            ));
        }
    }
}

/// Dropping the settled ledgers brings no closed chain of debt among users
/// about.
pub proof fn lemma_pruned_no_member_cyclic_debt(users: Seq<User>, ledgers: Seq<Ledger>)
    requires
        ledgers.len() <= usize::MAX,
        no_member_cyclic_debt(users, ledgers),
    ensures
        no_member_cyclic_debt(users, pruned(ledgers)),
{
    let kept = pruned(ledgers);
    assert forall|trail: Seq<usize>| #[trigger] member_cycle(users, kept, trail) implies trail.len()
        <= 2 by {
        let back = lemma_cycle_before_pruning(ledgers, trail);
        assert forall|t: int| 0 <= t < back.len() implies known(
            users,
            ledgers[(#[trigger] back[t]) as int].borrower,
        ) by {
            assert(known(users, kept[trail[t] as int].borrower));
        }
        assert(member_cycle(users, ledgers, back));
    }
}

/// A closed chain of the ledgers that carry an amount is one of all the
/// ledgers, at other places.
pub proof fn lemma_cycle_before_pruning(ledgers: Seq<Ledger>, trail: Seq<usize>) -> (back: Seq<
    usize,
>)
    requires
        ledgers.len() <= usize::MAX,
        is_cycle(pruned(ledgers), trail),
    ensures
        is_cycle(ledgers, back),
        back.len() == trail.len(),
        forall|t: int|
            0 <= t < trail.len() ==> (#[trigger] back[t]) < ledgers.len()
                && ledgers[back[t] as int] == pruned(ledgers)[trail[t] as int],
{
    let kept = pruned(ledgers);
    let back = Seq::new(trail.len(), |t: int| origin(ledgers, trail[t] as int) as usize);
    assert forall|t: int| 0 <= t < trail.len() implies (#[trigger] back[t]) < ledgers.len()
        && ledgers[back[t] as int] == kept[trail[t] as int] by {
        lemma_pruned_origin(ledgers, trail[t] as int);
    }
    assert forall|t: int| 0 <= t < back.len() implies (#[trigger] back[t]) < ledgers.len()
        && ledgers[back[t] as int].is_edge() by {
        assert(kept[trail[t] as int].is_edge());
    }
    assert forall|t: int| 0 <= t < back.len() - 1 implies ledgers[(
    #[trigger] back[t]) as int].owes == ledgers[back[t + 1] as int].borrower by {
        assert(kept[trail[t] as int].owes == kept[trail[t + 1] as int].borrower);
        assert(ledgers[back[t + 1] as int] == kept[trail[t + 1] as int]);
    }
    assert forall|t: int, u: int| 0 <= t < u < back.len() implies ledgers[(
    #[trigger] back[t]) as int].borrower != ledgers[(#[trigger] back[u]) as int].borrower by {
        assert(kept[trail[t] as int].borrower != kept[trail[u] as int].borrower);
    }
    assert(ledgers[back[0] as int] == kept[trail[0] as int]);
    assert(ledgers[back[back.len() - 1] as int] == kept[trail[trail.len() - 1] as int]);
    back
}

/// The party `x` owes on an edge against which another edge runs.
pub open spec fn in_mutual_debt(ledgers: Seq<Ledger>, x: UserId) -> bool {
    exists|i: int, j: int|
        0 <= i < ledgers.len() && 0 <= j < ledgers.len() && (#[trigger] ledgers[i]).is_edge() && (
        #[trigger] ledgers[j]).is_edge() && ledgers[i].borrower == x && ledgers[i].opposes(
            ledgers[j],
        )
}

/// A closed chain of debt begins only at a party that stands in a mutual
/// debt.
pub open spec fn cycles_rest_on_mutual_debt(ledgers: Seq<Ledger>) -> bool {
    forall|x: UserId| #[trigger] no_cycle_from(ledgers, x) || in_mutual_debt(ledgers, x)
}

/// Where closed chains begin only at parties in mutual debt and nobody owes
/// each other, there is no closed chain.
pub proof fn lemma_no_rest(ledgers: Seq<Ledger>)
    requires
        cycles_rest_on_mutual_debt(ledgers),
        no_mutual_debt(ledgers),
    ensures
        no_cyclic_debt(ledgers),
{
    assert forall|trail: Seq<usize>| #[trigger] is_cycle(ledgers, trail) implies trail.len()
        <= 2 by {
        let x = ledgers[trail[0] as int].borrower;
        assert(no_cycle_from(ledgers, x) || in_mutual_debt(ledgers, x));
    }
}

/// Dropping the settled ledgers drops no edge.
pub proof fn lemma_edge_count_pruned(ledgers: Seq<Ledger>)
    ensures
        edge_count(pruned(ledgers)) == edge_count(ledgers),
    decreases ledgers.len(),
{
    reveal(Seq::filter);
    if ledgers.len() > 0 {
        lemma_edge_count_pruned(ledgers.drop_last());
        if ledgers.last().sum != 0 {
            assert(pruned(ledgers.drop_last()).push(ledgers.last()).drop_last() =~= pruned(
                ledgers.drop_last(),
            ));
        }
    }
}

/// The number of edges.
pub open spec fn edge_count(ledgers: Seq<Ledger>) -> nat
    decreases ledgers.len(),
{
    if ledgers.len() == 0 {
        0
    } else {
        edge_count(ledgers.drop_last()) + if ledgers.last().is_edge() {
            1nat
        } else {
            0nat
        }
    }
}

/// The least amount on a trail is no more than any amount on it, and some
/// edge of the trail carries it.
pub proof fn lemma_least(ledgers: Seq<Ledger>, trail: Seq<usize>)
    requires
        is_trail(ledgers, trail),
    ensures
        forall|i: int|
            0 <= i < trail.len() ==> least(ledgers, trail) <= ledgers[(#[trigger] trail[i]) as int].sum,
        trail.len() > 0 ==> exists|i: int|
            0 <= i < trail.len() && ledgers[(#[trigger] trail[i]) as int].sum == least(
                ledgers,
                trail,
            ),
        0 < least(ledgers, trail) <= i32::MAX,
    decreases trail.len(),
{
    if trail.len() > 0 {
        let rest = trail.drop_last();
        assert(is_trail(ledgers, rest)) by {
            assert forall|i: int| 0 <= i < rest.len() implies (#[trigger] rest[i]) < ledgers.len()
                && ledgers[rest[i] as int].is_edge() by {
                assert(rest[i] == trail[i]);
            }
            assert forall|i: int| 0 <= i < rest.len() - 1 implies ledgers[(
            #[trigger] rest[i]) as int].owes == ledgers[rest[i + 1] as int].borrower by {
                assert(rest[i] == trail[i] && rest[i + 1] == trail[i + 1]);
            }
            assert forall|i: int, j: int| 0 <= i < j < rest.len() implies ledgers[(
            #[trigger] rest[i]) as int].borrower != ledgers[(#[trigger] rest[j]) as int].borrower by {
                assert(rest[i] == trail[i] && rest[j] == trail[j]);
            }
        }
        lemma_least(ledgers, rest);
        let last = trail.len() - 1;
        assert(ledgers[trail[last] as int].is_edge());
        assert forall|i: int| 0 <= i < trail.len() implies least(ledgers, trail) <= ledgers[(
        #[trigger] trail[i]) as int].sum by {
            if i < last {
                assert(rest[i] == trail[i]);
            }
        }
        if least(ledgers, trail) == ledgers[trail[last] as int].sum {
        } else {
            let i = choose|i: int|
                0 <= i < rest.len() && ledgers[(#[trigger] rest[i]) as int].sum == least(
                    ledgers,
                    rest,
                );
            assert(rest[i] == trail[i]);
        }
    }
}

/// Where amounts have gone down and an edge has stopped being one, there are
/// fewer edges than before.
pub proof fn lemma_edge_count(before: Seq<Ledger>, after: Seq<Ledger>)
    requires
        reduces(before, after),
    ensures
        edge_count(after) <= edge_count(before),
        (exists|i: int| 0 <= i < before.len() && (#[trigger] before[i]).is_edge() && !after[i].is_edge())
            ==> edge_count(after) < edge_count(before),
    decreases before.len(),
{
    if before.len() > 0 {
        let n = before.len() - 1;
        let b = before.drop_last();
        let a = after.drop_last();
        assert(reduces(b, a)) by {
            assert forall|i: int| 0 <= i < b.len() implies {
                &&& (#[trigger] a[i]).id == b[i].id
                &&& a[i].borrower == b[i].borrower
                &&& a[i].owes == b[i].owes
                &&& a[i].sum <= b[i].sum
                &&& b[i].is_edge() ==> 0 <= a[i].sum
                &&& !b[i].is_edge() ==> a[i].sum == b[i].sum
            } by {
                assert(a[i] == after[i]);
            }
        }
        lemma_edge_count(b, a);
        assert(after[n].id == before[n].id);
        if exists|i: int| 0 <= i < before.len() && (#[trigger] before[i]).is_edge() && !after[i].is_edge() {
            let i = choose|i: int|
                0 <= i < before.len() && (#[trigger] before[i]).is_edge() && !after[i].is_edge();
            if i < n {
                assert(b[i].is_edge() && !a[i].is_edge());
            }
        }
    }
}

/// The balance of `x` once `amount` has been taken off the first `done`
/// edges of a trail: the party that owes on the first edge owes that much
/// less, and the party that the last of them is owed to gets that much less.
pub open spec fn balance_on_the_way(
    before: Seq<Ledger>,
    trail: Seq<usize>,
    done: int,
    amount: int,
    x: UserId,
) -> int {
    if done == 0 {
        balance(before, x)
    } else {
        balance(before, x) - (if before[trail[0] as int].borrower == x {
            amount
        } else {
            0
        }) + (if before[trail[done - 1] as int].owes == x {
            amount
        } else {
            0
        })
    }
}

/// Taking the amount off one more edge of a trail.
pub proof fn lemma_take_off_next(
    before: Seq<Ledger>,
    cur: Seq<Ledger>,
    trail: Seq<usize>,
    done: int,
    amount: int,
)
    requires
        is_trail(before, trail),
        0 <= done < trail.len(),
        taken_off(before, cur, trail, done, amount),
        forall|x: UserId| #[trigger]
            balance(cur, x) == balance_on_the_way(before, trail, done, amount, x),
        0 <= amount <= before[trail[done] as int].sum,
    ensures
        cur[trail[done] as int] == before[trail[done] as int],
        ({
            let e = trail[done] as int;
            let next = cur.update(e, cur[e].with_sum(cur[e].sum - amount));
            &&& taken_off(before, next, trail, done + 1, amount)
            &&& forall|x: UserId| #[trigger]
                balance(next, x) == balance_on_the_way(before, trail, done + 1, amount, x)
        }),
{
    let e = trail[done] as int;
    assert(trail[done] < before.len());
    assert(!on_trail(trail, done, e)) by {
        if on_trail(trail, done, e) {
            let t = choose|t: int| 0 <= t < done && t < trail.len() && (#[trigger] trail[t]) as int == e;
            assert(before[trail[t] as int].borrower != before[trail[done] as int].borrower);
        }
    }
    assert(cur[e] == before[e]);
    let l = cur[e].with_sum(cur[e].sum - amount);
    let next = cur.update(e, l);
    assert forall|i: int| 0 <= i < before.len() implies #[trigger] next[i] == if on_trail(
        trail,
        done + 1,
        i,
    ) {
        before[i].with_sum(before[i].sum - amount)
    } else {
        before[i]
    } by {
        if i == e {
            assert(trail[done] as int == e);
        } else {
            assert(next[i] == cur[i]);
            if on_trail(trail, done, i) {
                let t = choose|t: int|
                    0 <= t < done && t < trail.len() && (#[trigger] trail[t]) as int == i;
                assert(on_trail(trail, done + 1, i));
            } else if on_trail(trail, done + 1, i) {
                let t = choose|t: int|
                    0 <= t < done + 1 && t < trail.len() && (#[trigger] trail[t]) as int == i;
                assert(t < done);
            }
        }
    }
    assert forall|x: UserId| #[trigger]
        balance(next, x) == balance_on_the_way(before, trail, done + 1, amount, x) by {
        lemma_total_update(cur, e, l, owed_by(x));
        lemma_total_update(cur, e, l, owed_to(x));
        assert(balance(cur, x) == balance_on_the_way(before, trail, done, amount, x));
        if done > 0 {
            assert(before[trail[done - 1] as int].owes == before[trail[done - 1 + 1] as int].borrower);
        }
    }
}

/// Cancelling a cycle is a settlement, and it leaves fewer edges.
pub proof fn lemma_cancel_settles(before: Seq<Ledger>, after: Seq<Ledger>, trail: Seq<usize>)
    requires
        is_cycle(before, trail),
        cancelled(before, after, trail),
        forall|x: UserId| #[trigger]
            balance(after, x) == balance_on_the_way(
                before,
                trail,
                trail.len() as int,
                least(before, trail),
                x,
            ),
    ensures
        settles(before, after),
        edge_count(after) < edge_count(before),
{
    lemma_least(before, trail);
    let m = least(before, trail);
    assert forall|i: int| 0 <= i < before.len() implies {
        &&& (#[trigger] after[i]).id == before[i].id
        &&& after[i].borrower == before[i].borrower
        &&& after[i].owes == before[i].owes
        &&& after[i].sum <= before[i].sum
        &&& before[i].is_edge() ==> 0 <= after[i].sum
        &&& !before[i].is_edge() ==> after[i].sum == before[i].sum
    } by {
        if on_trail(trail, trail.len() as int, i) {
            let t = choose|t: int|
                0 <= t < trail.len() && t < trail.len() && (#[trigger] trail[t]) as int == i;
            assert(m <= before[trail[t] as int].sum);
        }
    }
    let t = choose|t: int|
        0 <= t < trail.len() && before[(#[trigger] trail[t]) as int].sum == m;
    let i = trail[t] as int;
    assert(on_trail(trail, trail.len() as int, i));
    assert(before[i].is_edge() && !after[i].is_edge());
    lemma_edge_count(before, after);
}

/// What holds in the middle of a cancellation, when `amount` has been taken
/// off the first `done` edges of `trail` and the changed ledgers have been
/// `written` down for the store in that order.
#[verifier::opaque]
pub open spec fn cancelling(
    before: Seq<Ledger>,
    cur: Seq<Ledger>,
    trail: Seq<usize>,
    done: int,
    amount: int,
    written: Seq<Ledger>,
) -> bool {
    &&& taken_off(before, cur, trail, done, amount)
    &&& forall|x: UserId| #[trigger]
        balance(cur, x) == balance_on_the_way(before, trail, done, amount, x)
    &&& written.len() == done
    &&& forall|d: int|
        0 <= d < done ==> #[trigger] written[d] == before[trail[d] as int].with_sum(
            before[trail[d] as int].sum - amount,
        )
    &&& unique_ids(before) ==> cur == replay(before, written)
}

/// Before anything is taken off, nothing has changed and nothing is written.
pub proof fn lemma_cancelling_begins(before: Seq<Ledger>, trail: Seq<usize>, amount: int)
    ensures
        cancelling(before, before, trail, 0, amount, Seq::<Ledger>::empty()),
{
    reveal(cancelling);
    assert forall|i: int| 0 <= i < before.len() implies !on_trail(trail, 0, i) by {}
}

/// Taking the least amount off the next edge of a cycle.
pub proof fn lemma_cancelling_next(
    before: Seq<Ledger>,
    cur: Seq<Ledger>,
    trail: Seq<usize>,
    done: int,
    amount: int,
    written: Seq<Ledger>,
)
    requires
        is_cycle(before, trail),
        0 <= done < trail.len(),
        amount == least(before, trail),
        cancelling(before, cur, trail, done, amount, written),
    ensures
        ({
            let e = trail[done] as int;
            let l = cur[e].with_sum(cur[e].sum - amount);
            &&& 0 <= e < cur.len()
            &&& cur[e] == before[e]
            &&& 0 < amount <= before[e].sum
            &&& cancelling(before, cur.update(e, l), trail, done + 1, amount, written.push(l))
        }),
{
    reveal(cancelling);
    let e = trail[done] as int;
    let l = cur[e].with_sum(cur[e].sum - amount);
    lemma_least(before, trail);
    assert(amount <= before[trail[done] as int].sum);
    lemma_take_off_next(before, cur, trail, done, amount);
    let longer = written.push(l);
    assert forall|d: int| 0 <= d < done + 1 implies #[trigger] longer[d]
        == before[trail[d] as int].with_sum(before[trail[d] as int].sum - amount) by {
        if d < done {
            assert(longer[d] == written[d]);
        }
    }
    if unique_ids(before) {
        assert(reduces(before, cur)) by {
            assert forall|i: int| 0 <= i < before.len() implies {
                &&& (#[trigger] cur[i]).id == before[i].id
                &&& cur[i].borrower == before[i].borrower
                &&& cur[i].owes == before[i].owes
                &&& cur[i].sum <= before[i].sum
                &&& before[i].is_edge() ==> 0 <= cur[i].sum
                &&& !before[i].is_edge() ==> cur[i].sum == before[i].sum
            } by {
                if on_trail(trail, done, i) {
                    let d = choose|d: int|
                        0 <= d < done && d < trail.len() && (#[trigger] trail[d]) as int == i;
                    assert(amount <= before[trail[d] as int].sum);
                    assert(before[trail[d] as int].is_edge());
                }
            }
        }
        lemma_unique_ids_stable(before, cur);
        lemma_replay_push(before, written, e, l);
    }
}

/// A cancellation that has gone all the way round is a settlement, leaves
/// fewer edges, and has written down every ledger of the cycle as it is now.
pub proof fn lemma_cancelling_done(
    before: Seq<Ledger>,
    cur: Seq<Ledger>,
    trail: Seq<usize>,
    written: Seq<Ledger>,
)
    requires
        is_cycle(before, trail),
        cancelling(before, cur, trail, trail.len() as int, least(before, trail), written),
    ensures
        cancelled(before, cur, trail),
        settles(before, cur),
        edge_count(cur) < edge_count(before),
        written.len() == trail.len(),
        forall|d: int| 0 <= d < trail.len() ==> written[d] == cur[(#[trigger] trail[d]) as int],
        unique_ids(before) ==> cur == replay(before, written),
{
    reveal(cancelling);
    lemma_cancel_settles(before, cur, trail);
    assert forall|d: int| 0 <= d < trail.len() implies written[d] == cur[(
    #[trigger] trail[d]) as int] by {
        let i = trail[d] as int;
        assert(on_trail(trail, trail.len() as int, i));
    }
}

/// Dropping the settled ledgers brings no closed chain of debt about.
pub proof fn lemma_pruned_no_cyclic_debt(ledgers: Seq<Ledger>)
    requires
        ledgers.len() <= usize::MAX,
        no_cyclic_debt(ledgers),
    ensures
        no_cyclic_debt(pruned(ledgers)),
{
    assert forall|trail: Seq<usize>| #[trigger] is_cycle(pruned(ledgers), trail) implies trail.len()
        <= 2 by {
        let back = lemma_cycle_before_pruning(ledgers, trail);
    }
}

} // verus!
