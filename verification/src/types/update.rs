use vstd::prelude::*;
use crate::types::balance::reduces;
use crate::types::ledger::Ledger;

verus! {

/// No two ledgers share a row id.
pub open spec fn unique_ids(ledgers: Seq<Ledger>) -> bool {
    forall|i: int, j: int|
        0 <= i < j < ledgers.len() ==> (#[trigger] ledgers[i]).id@ != (#[trigger] ledgers[j]).id@
}

/// Some ledger has the row id `id`.
pub open spec fn has_id(ledgers: Seq<Ledger>, id: Seq<char>) -> bool {
    exists|i: int| 0 <= i < ledgers.len() && (#[trigger] ledgers[i]).id@ == id
}

/// The place of the first ledger with the row id `id`.
pub open spec fn place_of(ledgers: Seq<Ledger>, id: Seq<char>) -> int {
    choose|i: int|
        0 <= i < ledgers.len() && (#[trigger] ledgers[i]).id@ == id && forall|m: int|
            0 <= m < i ==> (#[trigger] ledgers[m]).id@ != id
}

/// What storing `update` does to the ledgers: the first ledger with its row
/// id takes its amount, and where there is none, nothing changes.
pub open spec fn store(ledgers: Seq<Ledger>, update: Ledger) -> Seq<Ledger> {
    if has_id(ledgers, update.id@) {
        let i = place_of(ledgers, update.id@);
        ledgers.update(i, ledgers[i].with_sum(update.sum as int))
    } else {
        ledgers
    }
}

/// What storing `updates`, one after the other, does to the ledgers.
pub open spec fn replay(ledgers: Seq<Ledger>, updates: Seq<Ledger>) -> Seq<Ledger>
    decreases updates.len(),
{
    if updates.len() == 0 {
        ledgers
    } else {
        store(replay(ledgers, updates.drop_last()), updates.last())
    }
}

/// Row ids stay what they were while amounts go down.
pub proof fn lemma_unique_ids_stable(before: Seq<Ledger>, after: Seq<Ledger>)
    requires
        reduces(before, after),
        unique_ids(before),
    ensures
        unique_ids(after),
{
    assert forall|i: int, j: int| 0 <= i < j < after.len() implies (#[trigger] after[i]).id@ != (
    #[trigger] after[j]).id@ by {
        assert(before[i].id@ != before[j].id@);
    }
}

/// Where row ids are unique, storing a ledger that was taken from a place
/// changes the amount at that place.
pub proof fn lemma_store_at(ledgers: Seq<Ledger>, index: int, update: Ledger)
    requires
        unique_ids(ledgers),
        0 <= index < ledgers.len(),
        update == ledgers[index].with_sum(update.sum as int),
    ensures
        store(ledgers, update) == ledgers.update(index, update),
{
    assert(ledgers[index].id@ == update.id@);
    assert(has_id(ledgers, update.id@));
    assert forall|m: int| 0 <= m < index implies (#[trigger] ledgers[m]).id@ != update.id@ by {
        assert(ledgers[m].id@ != ledgers[index].id@);
    }
    let i = place_of(ledgers, update.id@);
    if i < index {
        assert(ledgers[i].id@ != ledgers[index].id@);
    } else if index < i {
        assert(ledgers[index].id@ != ledgers[i].id@);
    }
}

/// Storing one more update after a replay.
pub proof fn lemma_replay_push(
    start: Seq<Ledger>,
    written: Seq<Ledger>,
    index: int,
    update: Ledger,
)
    requires
        unique_ids(replay(start, written)),
        0 <= index < replay(start, written).len(),
        update == replay(start, written)[index].with_sum(update.sum as int),
    ensures
        replay(start, written.push(update)) == replay(start, written).update(index, update),
{
    assert(written.push(update).drop_last() =~= written);
    lemma_store_at(replay(start, written), index, update);
}

} // verus!
