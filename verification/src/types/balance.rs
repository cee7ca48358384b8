use vstd::prelude::*;
use crate::types::ledger::Ledger;
use crate::types::user::UserId;

verus! {

/// Sum of the amounts of the ledgers that `pick` selects.
pub open spec fn total(ledgers: Seq<Ledger>, pick: spec_fn(Ledger) -> bool) -> int
    decreases ledgers.len(),
{
    if ledgers.len() == 0 {
        0
    } else {
        total(ledgers.drop_last(), pick) + if pick(ledgers.last()) {
            ledgers.last().sum as int
        } else {
            0
        }
    }
}

pub open spec fn from_to(x: UserId, y: UserId) -> spec_fn(Ledger) -> bool {
    |l: Ledger| l.borrower == x && l.owes == y
}

pub open spec fn owed_by(x: UserId) -> spec_fn(Ledger) -> bool {
    |l: Ledger| l.borrower == x
}

pub open spec fn owed_to(x: UserId) -> spec_fn(Ledger) -> bool {
    |l: Ledger| l.owes == x
}

pub open spec fn nonzero() -> spec_fn(Ledger) -> bool {
    |l: Ledger| l.sum != 0
}

/// What `x` owes to `y`, summed over every ledger from `x` to `y`.
pub open spec fn owed(ledgers: Seq<Ledger>, x: UserId, y: UserId) -> int {
    total(ledgers, from_to(x, y))
}

/// What `x` owes in all, less what `x` is owed in all.
pub open spec fn balance(ledgers: Seq<Ledger>, x: UserId) -> int {
    total(ledgers, owed_by(x)) - total(ledgers, owed_to(x))
}

/// The ledgers that are left when the settled ones are dropped.
pub open spec fn pruned(ledgers: Seq<Ledger>) -> Seq<Ledger> {
    ledgers.filter(nonzero())
}

/// `after` holds the ledgers of `before`, one for one and in the same order:
/// the amount of an edge may have gone down, but not below zero, and nothing
/// else has changed.
pub open spec fn reduces(before: Seq<Ledger>, after: Seq<Ledger>) -> bool {
    &&& before.len() == after.len()
    &&& forall|i: int|
        0 <= i < before.len() ==> {
            &&& (#[trigger] after[i]).id == before[i].id
            &&& after[i].borrower == before[i].borrower
            &&& after[i].owes == before[i].owes
            &&& after[i].sum <= before[i].sum
            &&& before[i].is_edge() ==> 0 <= after[i].sum
            &&& !before[i].is_edge() ==> after[i].sum == before[i].sum
        }
}

/// `after` is a settlement of `before`: amounts have only gone down, and every
/// party's balance against the rest of the group is what it was.
pub open spec fn settles(before: Seq<Ledger>, after: Seq<Ledger>) -> bool {
    &&& reduces(before, after)
    &&& forall|x: UserId| #[trigger] balance(after, x) == balance(before, x)
}

pub proof fn lemma_total_push(ledgers: Seq<Ledger>, l: Ledger, pick: spec_fn(Ledger) -> bool)
    ensures
        total(ledgers.push(l), pick) == total(ledgers, pick) + if pick(l) {
            l.sum as int
        } else {
            0
        },
{
    assert(ledgers.push(l).drop_last() =~= ledgers);
}

/// Changing the amount of one ledger changes a total by the difference, if the
/// ledger counts towards it.
pub proof fn lemma_total_update(
    ledgers: Seq<Ledger>,
    i: int,
    l: Ledger,
    pick: spec_fn(Ledger) -> bool,
)
    requires
        0 <= i < ledgers.len(),
        pick(l) == pick(ledgers[i]),
    ensures
        total(ledgers.update(i, l), pick) == total(ledgers, pick) + if pick(l) {
            l.sum - ledgers[i].sum
        } else {
            0
        },
    decreases ledgers.len(),
{
    let updated = ledgers.update(i, l);
    if i == ledgers.len() - 1 {
        assert(updated.drop_last() =~= ledgers.drop_last());
    } else {
        lemma_total_update(ledgers.drop_last(), i, l, pick);
        assert(updated.drop_last() =~= ledgers.drop_last().update(i, l));
    }
}

/// Where no amount has gone up, no total has gone up.
pub proof fn lemma_total_reduces(
    before: Seq<Ledger>,
    after: Seq<Ledger>,
    pick: spec_fn(Ledger) -> bool,
)
    requires
        reduces(before, after),
        forall|i: int| 0 <= i < before.len() ==> pick(#[trigger] after[i]) == pick(before[i]),
    ensures
        total(after, pick) <= total(before, pick),
    decreases before.len(),
{
    if before.len() > 0 {
        let n = before.len() - 1;
        assert(after[n].sum <= before[n].sum);
        assert forall|i: int| 0 <= i < n implies pick(#[trigger] after.drop_last()[i]) == pick(
            before.drop_last()[i],
        ) by {
            assert(after.drop_last()[i] == after[i]);
        }
        assert(reduces(before.drop_last(), after.drop_last())) by {
            assert forall|i: int| 0 <= i < n implies {
                &&& (#[trigger] after.drop_last()[i]).id == before.drop_last()[i].id
                &&& after.drop_last()[i].borrower == before.drop_last()[i].borrower
                &&& after.drop_last()[i].owes == before.drop_last()[i].owes
                &&& after.drop_last()[i].sum <= before.drop_last()[i].sum
                &&& before.drop_last()[i].is_edge() ==> 0 <= after.drop_last()[i].sum
                &&& !before.drop_last()[i].is_edge() ==> after.drop_last()[i].sum
                    == before.drop_last()[i].sum
            } by {
                assert(after.drop_last()[i] == after[i]);
            }
        }
        lemma_total_reduces(before.drop_last(), after.drop_last(), pick);
    }
}

/// Where amounts have only gone down, no party owes any other party more
/// than before.
pub proof fn lemma_owed_no_more(before: Seq<Ledger>, after: Seq<Ledger>)
    requires
        reduces(before, after),
    ensures
        forall|x: UserId, y: UserId| #[trigger] owed(after, x, y) <= owed(before, x, y),
{
    assert forall|x: UserId, y: UserId| #[trigger] owed(after, x, y) <= owed(before, x, y) by {
        lemma_total_reduces(before, after, from_to(x, y));
    }
}

/// Dropping the settled ledgers changes no total.
pub proof fn lemma_total_pruned(ledgers: Seq<Ledger>, pick: spec_fn(Ledger) -> bool)
    ensures
        total(pruned(ledgers), pick) == total(ledgers, pick),
    decreases ledgers.len(),
{
    reveal(Seq::filter);
    if ledgers.len() > 0 {
        lemma_total_pruned(ledgers.drop_last(), pick);
        if ledgers.last().sum != 0 {
            lemma_total_push(pruned(ledgers.drop_last()), ledgers.last(), pick);
        }
    }
}

/// The place in `ledgers` that the ledger at the place `k` of the pruned
/// ledgers came from.
pub open spec fn origin(ledgers: Seq<Ledger>, k: int) -> int {
    choose|i: int| 0 <= i < ledgers.len() && #[trigger] ledgers[i] == pruned(ledgers)[k]
}

/// Every pruned ledger carries an amount and came from somewhere.
pub proof fn lemma_pruned_origin(ledgers: Seq<Ledger>, k: int)
    requires
        0 <= k < pruned(ledgers).len(),
    ensures
        pruned(ledgers)[k].sum != 0,
        0 <= origin(ledgers, k) < ledgers.len(),
        ledgers[origin(ledgers, k)] == pruned(ledgers)[k],
{
    ledgers.lemma_filter_pred(nonzero(), k);
    let elem = pruned(ledgers)[k];
    assert(pruned(ledgers).contains(elem));
    ledgers.lemma_filter_contains_rev(nonzero(), elem);
    let i = choose|i: int| 0 <= i < ledgers.len() && ledgers[i] == elem;
    assert(ledgers[i] == pruned(ledgers)[k]);
}

/// Where every ledger carries an amount, pruning drops nothing.
pub proof fn lemma_pruned_fixed(ledgers: Seq<Ledger>)
    requires
        forall|i: int| 0 <= i < ledgers.len() ==> (#[trigger] ledgers[i]).sum != 0,
    ensures
        pruned(ledgers) == ledgers,
    decreases ledgers.len(),
{
    reveal(Seq::filter);
    if ledgers.len() > 0 {
        assert forall|i: int| 0 <= i < ledgers.len() - 1 implies (
        #[trigger] ledgers.drop_last()[i]).sum != 0 by {
            assert(ledgers.drop_last()[i] == ledgers[i]);
        }
        lemma_pruned_fixed(ledgers.drop_last());
        assert(ledgers.last() == ledgers[ledgers.len() - 1]);
        assert(ledgers.drop_last().push(ledgers.last()) =~= ledgers);
    } else {
        assert(pruned(ledgers) =~= ledgers);
    }
}

/// Pruning twice is pruning once.
pub proof fn lemma_pruned_twice(ledgers: Seq<Ledger>)
    ensures
        pruned(pruned(ledgers)) == pruned(ledgers),
{
    assert forall|k: int| 0 <= k < pruned(ledgers).len() implies (
    #[trigger] pruned(ledgers)[k]).sum != 0 by {
        lemma_pruned_origin(ledgers, k);
    }
    lemma_pruned_fixed(pruned(ledgers));
}

/// Settling a settlement settles the ledgers one started from.
pub proof fn lemma_settles_trans(a: Seq<Ledger>, b: Seq<Ledger>, c: Seq<Ledger>)
    requires
        settles(a, b),
        settles(b, c),
    ensures
        settles(a, c),
{
    assert forall|i: int| 0 <= i < a.len() implies {
        &&& (#[trigger] c[i]).id == a[i].id
        &&& c[i].borrower == a[i].borrower
        &&& c[i].owes == a[i].owes
        &&& c[i].sum <= a[i].sum
        &&& a[i].is_edge() ==> 0 <= c[i].sum
        &&& !a[i].is_edge() ==> c[i].sum == a[i].sum
    } by {
        assert(b[i].id == a[i].id);
    }
    assert forall|x: UserId| #[trigger] balance(c, x) == balance(a, x) by {
        assert(balance(b, x) == balance(a, x));
    }
}

/// Lowering two opposite edges by the same amount is a settlement.
pub proof fn lemma_net_settles(ledgers: Seq<Ledger>, i: int, j: int, delta: int)
    requires
        0 <= i < ledgers.len(),
        0 <= j < ledgers.len(),
        ledgers[i].is_edge(),
        ledgers[j].is_edge(),
        ledgers[i].opposes(ledgers[j]),
        0 <= delta <= ledgers[i].sum,
        delta <= ledgers[j].sum,
    ensures
        settles(
            ledgers,
            ledgers.update(i, ledgers[i].with_sum(ledgers[i].sum - delta)).update(
                j,
                ledgers[j].with_sum(ledgers[j].sum - delta),
            ),
        ),
{
    let li = ledgers[i].with_sum(ledgers[i].sum - delta);
    let lj = ledgers[j].with_sum(ledgers[j].sum - delta);
    let mid = ledgers.update(i, li);
    let end = mid.update(j, lj);
    assert(i != j);
    assert(mid[j] == ledgers[j]);
    assert forall|x: UserId| #[trigger] balance(end, x) == balance(ledgers, x) by {
        lemma_total_update(ledgers, i, li, owed_by(x));
        lemma_total_update(ledgers, i, li, owed_to(x));
        lemma_total_update(mid, j, lj, owed_by(x));
        lemma_total_update(mid, j, lj, owed_to(x));
    }
}

/// No ledger carries a negative amount.
pub open spec fn no_negative(ledgers: Seq<Ledger>) -> bool {
    forall|i: int| 0 <= i < ledgers.len() ==> (#[trigger] ledgers[i]).sum >= 0
}

/// Every ledger carries a positive amount.
pub open spec fn all_positive(ledgers: Seq<Ledger>) -> bool {
    forall|i: int| 0 <= i < ledgers.len() ==> (#[trigger] ledgers[i]).sum > 0
}

/// `after` owes no more than `before` between any two parties, and leaves
/// every party's balance what it was.
pub open spec fn conserves(before: Seq<Ledger>, after: Seq<Ledger>) -> bool {
    &&& forall|x: UserId, y: UserId| #[trigger] owed(after, x, y) <= owed(before, x, y)
    &&& forall|x: UserId| #[trigger] balance(after, x) == balance(before, x)
}

/// Conserving twice is conserving.
pub proof fn lemma_conserves_trans(a: Seq<Ledger>, b: Seq<Ledger>, c: Seq<Ledger>)
    requires
        conserves(a, b),
        conserves(b, c),
    ensures
        conserves(a, c),
{
    assert forall|x: UserId, y: UserId| #[trigger] owed(c, x, y) <= owed(a, x, y) by {
        assert(owed(b, x, y) <= owed(a, x, y));
    }
    assert forall|x: UserId| #[trigger] balance(c, x) == balance(a, x) by {
        assert(balance(b, x) == balance(a, x));
    }
}

/// A settlement with its settled ledgers dropped conserves.
pub proof fn lemma_settled_and_pruned(before: Seq<Ledger>, after: Seq<Ledger>)
    requires
        settles(before, after),
    ensures
        conserves(before, after),
        conserves(before, pruned(after)),
        conserves(after, pruned(after)),
{
    lemma_owed_no_more(before, after);
    assert forall|x: UserId, y: UserId| #[trigger]
        owed(pruned(after), x, y) == owed(after, x, y) by {
        lemma_total_pruned(after, from_to(x, y));
    }
    assert forall|x: UserId| #[trigger] balance(pruned(after), x) == balance(after, x) by {
        lemma_total_pruned(after, owed_by(x));
        lemma_total_pruned(after, owed_to(x));
    }
}

/// The ledger `new` is the ledger `old` with an amount that has not gone up,
/// and has gone down only on an edge and not below zero.
pub open spec fn comes_from(old: Ledger, new: Ledger) -> bool {
    &&& new.id == old.id
    &&& new.borrower == old.borrower
    &&& new.owes == old.owes
    &&& new.sum <= old.sum
    &&& old.is_edge() ==> 0 <= new.sum
    &&& !old.is_edge() ==> new.sum == old.sum
}

/// The ledger `new` comes from one of the ledgers.
pub open spec fn has_origin(ledgers: Seq<Ledger>, new: Ledger) -> bool {
    exists|i: int| 0 <= i < ledgers.len() && #[trigger] comes_from(ledgers[i], new)
}

/// Every ledger of `after` comes from a ledger of `before`.
pub open spec fn descends(before: Seq<Ledger>, after: Seq<Ledger>) -> bool {
    forall|k: int| 0 <= k < after.len() ==> has_origin(before, #[trigger] after[k])
}

/// Ledgers whose amounts have gone down come from the ledgers, and so do
/// those of them that carry an amount.
pub proof fn lemma_reduces_descends(before: Seq<Ledger>, after: Seq<Ledger>)
    requires
        reduces(before, after),
    ensures
        descends(before, after),
        descends(before, pruned(after)),
{
    assert forall|k: int| 0 <= k < after.len() implies has_origin(before, #[trigger] after[k]) by {
        assert(after[k].id == before[k].id);
        assert(comes_from(before[k], after[k]));
    }
    lemma_descends_pruned(before, after);
}

/// Ledgers that have gone down, with the settled ones dropped, still come
/// from where the ledgers came from.
pub proof fn lemma_descends_next(start: Seq<Ledger>, cur: Seq<Ledger>, next: Seq<Ledger>)
    requires
        descends(start, cur),
        reduces(cur, next),
    ensures
        descends(start, pruned(next)),
{
    assert forall|k: int| 0 <= k < pruned(next).len() implies has_origin(
        start,
        #[trigger] pruned(next)[k],
    ) by {
        lemma_pruned_origin(next, k);
        let m = origin(next, k);
        assert(next[m].id == cur[m].id);
        assert(has_origin(start, cur[m]));
        let i = choose|i: int| 0 <= i < start.len() && #[trigger] comes_from(start[i], cur[m]);
        assert(comes_from(start[i], pruned(next)[k]));
    }
}

/// Dropping the settled ledgers leaves ledgers that come from the ledgers.
pub proof fn lemma_descends_pruned(start: Seq<Ledger>, cur: Seq<Ledger>)
    requires
        descends(start, cur),
    ensures
        descends(start, pruned(cur)),
        no_negative(start) ==> no_negative(cur) && all_positive(pruned(cur)),
{
    assert forall|k: int| 0 <= k < pruned(cur).len() implies has_origin(
        start,
        #[trigger] pruned(cur)[k],
    ) by {
        lemma_pruned_origin(cur, k);
        let m = origin(cur, k);
        assert(has_origin(start, cur[m]));
        let i = choose|i: int| 0 <= i < start.len() && #[trigger] comes_from(start[i], cur[m]);
        assert(comes_from(start[i], pruned(cur)[k]));
    }
    if no_negative(start) {
        assert forall|k: int| 0 <= k < cur.len() implies (#[trigger] cur[k]).sum >= 0 by {
            assert(has_origin(start, cur[k]));
            let i = choose|i: int| 0 <= i < start.len() && #[trigger] comes_from(start[i], cur[k]);
            assert(start[i].sum >= 0);
        }
        assert forall|k: int| 0 <= k < pruned(cur).len() implies (
        #[trigger] pruned(cur)[k]).sum > 0 by {
            lemma_pruned_origin(cur, k);
            assert(cur[origin(cur, k)].sum >= 0);
        }
    }
}

} // verus!
