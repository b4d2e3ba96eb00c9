//! The set of seeders and the archives that each of them pins.
//!
//! Seeders stand in the order in which they first pinned an archive. Each
//! holds the ids of its archives in growing order, no id twice. A seeder that
//! pins nothing is not in the set.

use vstd::prelude::*;
use crate::primitives::AccountId;
use crate::registry::{DatRecord, has_id, find_id};

verus! {

/// A seeder and the ids of the archives that it pins.
#[derive(Clone, Debug, PartialEq, Eq)]
pub struct Seeder {
    pub account: AccountId,
    pub dats: Vec<u64>,
}

/// A seeder as a value.
pub struct SeederView {
    pub account: AccountId,
    pub dats: Seq<u64>,
}

impl View for Seeder {
    type V = SeederView;

    open spec fn view(&self) -> SeederView {
        SeederView { account: self.account, dats: self.dats@ }
    }
}

/// A list of seeders as values.
pub open spec fn views(seeders: Seq<Seeder>) -> Seq<SeederView> {
    Seq::new(seeders.len(), |i: int| seeders[i]@)
}

/// Which ids of a list are kept: those below a given id, those above it, or
/// all but the id itself.
#[derive(Clone, Copy, Debug, PartialEq, Eq, Structural)]
pub enum Keep {
    Below,
    Above,
    Others,
}

/// Whether `value` is kept, with respect to `id`.
pub open spec fn keeps(keep: Keep, id: u64, value: u64) -> bool {
    match keep {
        Keep::Below => value < id,
        Keep::Above => value > id,
        Keep::Others => value != id,
    }
}

/// Whether the ids of `list` grow from each to the next, so that none occurs
/// twice.
pub open spec fn increasing(list: Seq<u64>) -> bool {
    forall|a: int, b: int| 0 <= a < b < list.len() ==> list[a] < list[b]
}

/// The ids of `list` that are kept, in their order.
pub open spec fn selected(list: Seq<u64>, keep: Keep, id: u64) -> Seq<u64>
    decreases list.len(),
{
    if list.len() == 0 {
        Seq::empty()
    } else {
        let before = selected(list.drop_last(), keep, id);
        if keeps(keep, id, list.last()) {
            before.push(list.last())
        } else {
            before
        }
    }
}

/// The list with `id` put in at its place in the order, once.
pub open spec fn with_id(list: Seq<u64>, id: u64) -> Seq<u64> {
    selected(list, Keep::Below, id).push(id) + selected(list, Keep::Above, id)
}

/// Whether `account` is in the set.
pub open spec fn has_seeder(seeders: Seq<SeederView>, account: AccountId) -> bool {
    exists|i: int| 0 <= i < seeders.len() && (#[trigger] seeders[i]).account == account
}

/// The first position at or after `from` that holds `account`; the length of
/// the list if there is none.
pub open spec fn first_seeder(seeders: Seq<SeederView>, account: AccountId, from: int) -> int
    decreases seeders.len() - from,
{
    if 0 <= from < seeders.len() && seeders[from].account != account {
        first_seeder(seeders, account, from + 1)
    } else {
        from
    }
}

/// The set after `account` pinned the archive `id`: the id joins the list of
/// the seeder, and a new seeder joins the set at its end.
pub open spec fn pinned(seeders: Seq<SeederView>, account: AccountId, id: u64) -> Seq<SeederView> {
    let at = first_seeder(seeders, account, 0);
    if at < seeders.len() {
        seeders.update(at, SeederView { account, dats: with_id(seeders[at].dats, id) })
    } else {
        seeders.push(SeederView { account, dats: seq![id] })
    }
}

/// The set after `account` left it.
pub open spec fn without_seeder(seeders: Seq<SeederView>, account: AccountId) -> Seq<SeederView> {
    let at = first_seeder(seeders, account, 0);
    if at < seeders.len() {
        seeders.remove(at)
    } else {
        seeders
    }
}

/// The set after the archive `id` was taken from every seeder; a seeder left
/// with nothing leaves the set.
pub open spec fn unpinned(seeders: Seq<SeederView>, id: u64) -> Seq<SeederView>
    decreases seeders.len(),
{
    if seeders.len() == 0 {
        Seq::empty()
    } else {
        let before = unpinned(seeders.drop_last(), id);
        let rest = selected(seeders.last().dats, Keep::Others, id);
        if rest.len() == 0 {
            before
        } else {
            before.push(SeederView { account: seeders.last().account, dats: rest })
        }
    }
}

/// The shape of the set over the table `dats`: no account twice; every
/// seeder pins something, in growing order, and only archives that are
/// registered.
pub open spec fn seeders_wf(seeders: Seq<SeederView>, dats: Seq<DatRecord>) -> bool {
    &&& forall|i: int, j: int|
        0 <= i < j < seeders.len() ==> (#[trigger] seeders[i]).account != (
        #[trigger] seeders[j]).account
    &&& forall|i: int| 0 <= i < seeders.len() ==> (#[trigger] seeders[i]).dats.len() > 0
    &&& forall|i: int| 0 <= i < seeders.len() ==> increasing((#[trigger] seeders[i]).dats)
    &&& forall|i: int, k: int|
        0 <= i < seeders.len() && 0 <= k < seeders[i].dats.len() ==> has_id(
            dats,
            #[trigger] seeders[i].dats[k],
        )
}

/// Where a scan for a seeder ends.
pub proof fn lemma_first_seeder(seeders: Seq<SeederView>, account: AccountId, from: int)
    requires
        0 <= from <= seeders.len(),
    ensures
        from <= first_seeder(seeders, account, from) <= seeders.len(),
        first_seeder(seeders, account, from) < seeders.len() ==> seeders[first_seeder(
            seeders,
            account,
            from,
        )].account == account,
        forall|i: int|
            from <= i < first_seeder(seeders, account, from) ==> (#[trigger] seeders[i]).account
                != account,
    decreases seeders.len() - from,
{
    if from < seeders.len() && seeders[from].account != account {
        lemma_first_seeder(seeders, account, from + 1);
    }
}

/// What a selection holds: ids of the list, each of them kept; and every id
/// of the list that is kept.
pub proof fn lemma_selected(list: Seq<u64>, keep: Keep, id: u64)
    ensures
        forall|k: int|
            0 <= k < selected(list, keep, id).len() ==> keeps(
                keep,
                id,
                #[trigger] selected(list, keep, id)[k],
            ) && list.contains(selected(list, keep, id)[k]),
        forall|k: int|
            0 <= k < list.len() && keeps(keep, id, #[trigger] list[k]) ==> selected(
                list,
                keep,
                id,
            ).contains(list[k]),
        selected(list, keep, id).len() <= list.len(),
    decreases list.len(),
{
    let out = selected(list, keep, id);
    if list.len() > 0 {
        let shorter = list.drop_last();
        let before = selected(shorter, keep, id);
        lemma_selected(shorter, keep, id);
        assert forall|k: int| 0 <= k < out.len() implies keeps(keep, id, #[trigger] out[k])
            && list.contains(out[k]) by {
            if k < before.len() {
                assert(shorter.contains(before[k]));
                let at = choose|at: int| 0 <= at < shorter.len() && shorter[at] == before[k];
                assert(list[at] == before[k]);
            } else {
                assert(list[list.len() - 1] == out[k]);
            }
        }
        assert forall|k: int| 0 <= k < list.len() && keeps(keep, id, #[trigger] list[k]) implies out.contains(
            list[k],
        ) by {
            if k < shorter.len() {
                assert(shorter[k] == list[k]);
                assert(before.contains(shorter[k]));
                let at = choose|at: int| 0 <= at < before.len() && before[at] == shorter[k];
                assert(out[at] == list[k]);
            } else {
                assert(out[out.len() - 1] == list[k]);
            }
        }
    }
}

/// A selection from a list in growing order is in growing order.
pub proof fn lemma_selected_increasing(list: Seq<u64>, keep: Keep, id: u64)
    requires
        increasing(list),
    ensures
        increasing(selected(list, keep, id)),
    decreases list.len(),
{
    let out = selected(list, keep, id);
    if list.len() > 0 {
        let shorter = list.drop_last();
        let before = selected(shorter, keep, id);
        assert(increasing(shorter)) by {
            assert forall|a: int, b: int| 0 <= a < b < shorter.len() implies shorter[a]
                < shorter[b] by {
                assert(list[a] < list[b]);
            }
        }
        lemma_selected_increasing(shorter, keep, id);
        lemma_selected(shorter, keep, id);
        assert forall|a: int, b: int| 0 <= a < b < out.len() implies out[a] < out[b] by {
            if b < before.len() {
                assert(before[a] < before[b]);
            } else {
                assert(shorter.contains(before[a]));
                let at = choose|at: int| 0 <= at < shorter.len() && shorter[at] == before[a];
                assert(list[at] < list[list.len() - 1]);
            }
        }
    }
}

/// A list in growing order is in growing order with one more id put in.
pub proof fn lemma_with_id_increasing(list: Seq<u64>, id: u64)
    requires
        increasing(list),
    ensures
        increasing(with_id(list, id)),
        with_id(list, id).len() > 0,
{
    let below = selected(list, Keep::Below, id);
    let above = selected(list, Keep::Above, id);
    let out = with_id(list, id);
    lemma_selected(list, Keep::Below, id);
    lemma_selected(list, Keep::Above, id);
    lemma_selected_increasing(list, Keep::Below, id);
    lemma_selected_increasing(list, Keep::Above, id);
    assert forall|a: int, b: int| 0 <= a < b < out.len() implies out[a] < out[b] by {
        let first = below.len() as int;
        if b < first {
            assert(below[a] < below[b]);
        } else if b == first {
            assert(keeps(Keep::Below, id, below[a]));
        } else if a < first {
            assert(keeps(Keep::Below, id, below[a]));
            assert(keeps(Keep::Above, id, above[b - first - 1]));
        } else if a == first {
            assert(keeps(Keep::Above, id, above[b - first - 1]));
        } else {
            assert(above[a - first - 1] < above[b - first - 1]);
        }
    }
}

/// Pinning a registered archive keeps the shape of the set.
pub proof fn lemma_pinned_wf(
    seeders: Seq<SeederView>,
    dats: Seq<DatRecord>,
    account: AccountId,
    id: u64,
)
    requires
        seeders_wf(seeders, dats),
        has_id(dats, id),
    ensures
        seeders_wf(pinned(seeders, account, id), dats),
{
    let after = pinned(seeders, account, id);
    let at = first_seeder(seeders, account, 0);
    lemma_first_seeder(seeders, account, 0);
    if at < seeders.len() {
        let list = seeders[at].dats;
        lemma_selected(list, Keep::Below, id);
        lemma_selected(list, Keep::Above, id);
        let below = selected(list, Keep::Below, id);
        let above = selected(list, Keep::Above, id);
        assert forall|i: int, k: int|
            0 <= i < after.len() && 0 <= k < after[i].dats.len() implies has_id(
            dats,
            #[trigger] after[i].dats[k],
        ) by {
            if i == at {
                let value = after[i].dats[k];
                if k < below.len() {
                    assert(value == below[k]);
                    assert(list.contains(below[k]));
                    let source = choose|source: int|
                        0 <= source < list.len() && list[source] == below[k];
                    assert(has_id(dats, seeders[at].dats[source]));
                } else if k > below.len() {
                    assert(value == above[k - below.len() - 1]);
                    assert(list.contains(above[k - below.len() - 1]));
                    let source = choose|source: int|
                        0 <= source < list.len() && list[source] == above[k - below.len() - 1];
                    assert(has_id(dats, seeders[at].dats[source]));
                }
            } else {
                assert(after[i] == seeders[i]);
                assert(has_id(dats, seeders[i].dats[k]));
            }
        }
        lemma_with_id_increasing(list, id);
        assert forall|i: int| 0 <= i < after.len() implies (#[trigger] after[i]).dats.len() > 0
            && increasing(after[i].dats) by {
            if i != at {
                assert(after[i] == seeders[i]);
            }
        }
        assert forall|i: int, j: int| 0 <= i < j < after.len() implies (#[trigger] after[i]).account
            != (#[trigger] after[j]).account by {
            assert(after[i].account == seeders[i].account);
            assert(after[j].account == seeders[j].account);
        }
    } else {
        assert forall|i: int, k: int|
            0 <= i < after.len() && 0 <= k < after[i].dats.len() implies has_id(
            dats,
            #[trigger] after[i].dats[k],
        ) by {
            if i < seeders.len() {
                assert(after[i] == seeders[i]);
                assert(has_id(dats, seeders[i].dats[k]));
            }
        }
        assert forall|i: int| 0 <= i < after.len() implies (#[trigger] after[i]).dats.len() > 0
            && increasing(after[i].dats) by {
            if i < seeders.len() {
                assert(after[i] == seeders[i]);
            }
        }
        assert forall|i: int, j: int| 0 <= i < j < after.len() implies (#[trigger] after[i]).account
            != (#[trigger] after[j]).account by {
            assert(after[i] == seeders[i]);
            if j < seeders.len() {
                assert(after[j] == seeders[j]);
            }
        }
    }
}

/// A seeder that leaves keeps the shape of the set, and is then not in it.
pub proof fn lemma_without_seeder_wf(
    seeders: Seq<SeederView>,
    dats: Seq<DatRecord>,
    account: AccountId,
)
    requires
        seeders_wf(seeders, dats),
    ensures
        seeders_wf(without_seeder(seeders, account), dats),
        !has_seeder(without_seeder(seeders, account), account),
{
    let after = without_seeder(seeders, account);
    let at = first_seeder(seeders, account, 0);
    lemma_first_seeder(seeders, account, 0);
    if at < seeders.len() {
        assert forall|i: int| 0 <= i < after.len() implies (#[trigger] after[i]).dats.len() > 0
            && increasing(after[i].dats) && after[i].account != account && (forall|k: int|
            0 <= k < after[i].dats.len() ==> has_id(dats, #[trigger] after[i].dats[k])) by {
            let source = if i < at { i } else { i + 1 };
            assert(after[i] == seeders[source]);
            if source > at {
                assert(seeders[at].account != seeders[source].account);
            }
            assert forall|k: int| 0 <= k < after[i].dats.len() implies has_id(
                dats,
                #[trigger] after[i].dats[k],
            ) by {
                assert(has_id(dats, seeders[source].dats[k]));
            }
        }
        assert forall|i: int, j: int| 0 <= i < j < after.len() implies (#[trigger] after[i]).account
            != (#[trigger] after[j]).account by {
            let source_i = if i < at { i } else { i + 1 };
            let source_j = if j < at { j } else { j + 1 };
            assert(after[i] == seeders[source_i]);
            assert(after[j] == seeders[source_j]);
        }
    }
}

/// Whether `after` is what is left of the seeder at `source` once the archive
/// `id` is taken from it.
pub open spec fn left_of(
    seeders: Seq<SeederView>,
    id: u64,
    after: SeederView,
    source: int,
) -> bool {
    &&& 0 <= source < seeders.len()
    &&& seeders[source].account == after.account
    &&& after.dats == selected(seeders[source].dats, Keep::Others, id)
}

/// Whether `after` is what is left of some seeder of the set.
pub open spec fn is_left(seeders: Seq<SeederView>, id: u64, after: SeederView) -> bool {
    exists|source: int| left_of(seeders, id, after, source)
}

/// Whether `first` and `second` are what is left of two seeders of the set,
/// the first of which stands before the second.
pub open spec fn left_in_order(
    seeders: Seq<SeederView>,
    id: u64,
    first: SeederView,
    second: SeederView,
) -> bool {
    exists|a: int, b: int|
        a < b && left_of(seeders, id, first, a) && left_of(seeders, id, second, b)
}

/// What is left when an archive is taken from every seeder: seeders of the
/// set before, in their order, each with what it still pins, which is
/// something.
pub proof fn lemma_unpinned(seeders: Seq<SeederView>, id: u64)
    ensures
        unpinned(seeders, id).len() <= seeders.len(),
        forall|i: int|
            0 <= i < unpinned(seeders, id).len() ==> (#[trigger] unpinned(seeders, id)[i]).dats.len()
                > 0,
        forall|i: int|
            0 <= i < unpinned(seeders, id).len() ==> is_left(
                seeders,
                id,
                #[trigger] unpinned(seeders, id)[i],
            ),
        forall|i: int, j: int|
            0 <= i < j < unpinned(seeders, id).len() ==> left_in_order(
                seeders,
                id,
                #[trigger] unpinned(seeders, id)[i],
                #[trigger] unpinned(seeders, id)[j],
            ),
    decreases seeders.len(),
{
    let out = unpinned(seeders, id);
    if seeders.len() > 0 {
        let shorter = seeders.drop_last();
        let before = unpinned(shorter, id);
        let last = seeders.len() - 1;
        lemma_unpinned(shorter, id);
        assert forall|i: int| 0 <= i < out.len() implies is_left(seeders, id, #[trigger] out[i]) by {
            if i < before.len() {
                assert(is_left(shorter, id, before[i]));
                let source = choose|source: int| left_of(shorter, id, before[i], source);
                assert(left_of(seeders, id, out[i], source));
            } else {
                assert(left_of(seeders, id, out[i], last));
            }
        }
        assert forall|i: int, j: int| 0 <= i < j < out.len() implies left_in_order(
            seeders,
            id,
            #[trigger] out[i],
            #[trigger] out[j],
        ) by {
            if j < before.len() {
                assert(left_in_order(shorter, id, before[i], before[j]));
                let (a, b) = choose|a: int, b: int|
                    a < b && left_of(shorter, id, before[i], a) && left_of(
                        shorter,
                        id,
                        before[j],
                        b,
                    );
                assert(left_of(seeders, id, out[i], a) && left_of(seeders, id, out[j], b));
            } else {
                assert(is_left(shorter, id, before[i]));
                let a = choose|source: int| left_of(shorter, id, before[i], source);
                assert(left_of(seeders, id, out[i], a) && left_of(seeders, id, out[j], last));
            }
        }
    }
}

/// Taking an archive from every seeder keeps the shape of the set, also over
/// a table that has lost the archive.
pub proof fn lemma_unpinned_wf(
    seeders: Seq<SeederView>,
    dats: Seq<DatRecord>,
    after_dats: Seq<DatRecord>,
    id: u64,
)
    requires
        seeders_wf(seeders, dats),
        forall|other: u64| has_id(dats, other) && other != id ==> has_id(after_dats, other),
    ensures
        seeders_wf(unpinned(seeders, id), after_dats),
{
    let out = unpinned(seeders, id);
    lemma_unpinned(seeders, id);
    assert forall|i: int, k: int| 0 <= i < out.len() && 0 <= k < out[i].dats.len() implies has_id(
        after_dats,
        #[trigger] out[i].dats[k],
    ) by {
        assert(is_left(seeders, id, out[i]));
        let source = choose|source: int| left_of(seeders, id, out[i], source);
        let list = seeders[source].dats;
        lemma_selected(list, Keep::Others, id);
        assert(list.contains(out[i].dats[k]));
        let at = choose|at: int| 0 <= at < list.len() && list[at] == out[i].dats[k];
        assert(has_id(dats, seeders[source].dats[at]));
    }
    assert forall|i: int| 0 <= i < out.len() implies increasing((#[trigger] out[i]).dats) by {
        assert(is_left(seeders, id, out[i]));
        let source = choose|source: int| left_of(seeders, id, out[i], source);
        assert(increasing(seeders[source].dats));
        lemma_selected_increasing(seeders[source].dats, Keep::Others, id);
    }
    assert forall|i: int, j: int| 0 <= i < j < out.len() implies (#[trigger] out[i]).account != (
    #[trigger] out[j]).account by {
        assert(left_in_order(seeders, id, out[i], out[j]));
        let (a, b) = choose|a: int, b: int|
            a < b && left_of(seeders, id, out[i], a) && left_of(seeders, id, out[j], b);
        assert(seeders[a].account != seeders[b].account);
    }
}

/// Checks that the ids of `list` grow from each to the next.
pub fn list_is_increasing(list: &Vec<u64>) -> (ok: bool)
    ensures
        ok == increasing(list@),
{
    if list.len() == 0 {
        return true;
    }
    let mut at: usize = 1;
    while at < list.len()
        invariant
            1 <= at <= list@.len(),
            forall|a: int, b: int| 0 <= a < b < at ==> list@[a] < list@[b],
        decreases list@.len() - at,
    {
        if list[at - 1] >= list[at] {
            return false;
        }
        proof {
            assert forall|a: int, b: int| 0 <= a < b < at + 1 implies list@[a] < list@[b] by {
                if b == at && a < at - 1 {
                    assert(list@[a] < list@[at - 1]);
                }
            }
        }
        at = at + 1;
    }
    true
}

/// Checks that every id of `list` is that of a registered archive.
pub fn ids_are_registered(list: &Vec<u64>, dats: &Vec<DatRecord>) -> (ok: bool)
    ensures
        ok == forall|k: int| 0 <= k < list@.len() ==> has_id(dats@, #[trigger] list@[k]),
{
    let mut at: usize = 0;
    while at < list.len()
        invariant
            at <= list@.len(),
            forall|k: int| 0 <= k < at ==> has_id(dats@, #[trigger] list@[k]),
        decreases list@.len() - at,
    {
        if find_id(dats, list[at]) >= dats.len() {
            assert(!has_id(dats@, list@[at as int]));
            return false;
        }
        at = at + 1;
    }
    true
}

/// Whether a seeder before the position `at` has the account of the seeder at
/// `at`.
pub fn account_occurs_before(seeders: &Vec<Seeder>, at: usize) -> (occurs: bool)
    requires
        at < seeders@.len(),
    ensures
        occurs == exists|i: int|
            0 <= i < at && (#[trigger] seeders@[i]).account == seeders@[at as int].account,
{
    let mut before: usize = 0;
    while before < at
        invariant
            before <= at < seeders@.len(),
            forall|i: int|
                0 <= i < before ==> (#[trigger] seeders@[i]).account != seeders@[at as int].account,
        decreases at - before,
    {
        if seeders[before].account == seeders[at].account {
            return true;
        }
        before = before + 1;
    }
    false
}

/// Checks the shape of a set of seeders over the table `dats`.
pub fn seeders_are_wf(seeders: &Vec<Seeder>, dats: &Vec<DatRecord>) -> (ok: bool)
    ensures
        ok == seeders_wf(views(seeders@), dats@),
{
    let ghost all = views(seeders@);
    let mut at: usize = 0;
    while at < seeders.len()
        invariant
            at <= seeders@.len(),
            all == views(seeders@),
            forall|i: int, j: int|
                0 <= i < j < at ==> (#[trigger] all[i]).account != (#[trigger] all[j]).account,
            forall|i: int| 0 <= i < at ==> (#[trigger] all[i]).dats.len() > 0,
            forall|i: int| 0 <= i < at ==> increasing((#[trigger] all[i]).dats),
            forall|i: int, k: int|
                0 <= i < at && 0 <= k < all[i].dats.len() ==> has_id(
                    dats@,
                    #[trigger] all[i].dats[k],
                ),
        decreases seeders@.len() - at,
    {
        assert(all[at as int] == seeders@[at as int]@);
        if seeders[at].dats.len() == 0 {
            assert(all[at as int].dats.len() == 0);
            return false;
        }
        if !list_is_increasing(&seeders[at].dats) {
            assert(!increasing(all[at as int].dats));
            return false;
        }
        if !ids_are_registered(&seeders[at].dats, dats) {
            proof {
                let list = seeders@[at as int].dats@;
                let k = choose|k: int| 0 <= k < list.len() && !has_id(dats@, #[trigger] list[k]);
                assert(!has_id(dats@, all[at as int].dats[k]));
            }
            return false;
        }
        if account_occurs_before(seeders, at) {
            proof {
                let i = choose|i: int|
                    0 <= i < at && (#[trigger] seeders@[i]).account == seeders@[at as int].account;
                assert(all[i].account == all[at as int].account);
            }
            return false;
        }
        proof {
            assert forall|i: int, j: int| 0 <= i < j < at + 1 implies (#[trigger] all[i]).account
                != (#[trigger] all[j]).account by {
                if j == at {
                    assert(seeders@[i].account != seeders@[at as int].account);
                }
            }
        }
        at = at + 1;
    }
    true
}

/// The ids of `list` that are kept, in their order.
pub fn select(list: &Vec<u64>, keep: Keep, id: u64) -> (kept: Vec<u64>)
    ensures
        kept@ == selected(list@, keep, id),
{
    let mut kept: Vec<u64> = Vec::new();
    let mut at: usize = 0;
    assert(list@.take(0) =~= Seq::empty());
    while at < list.len()
        invariant
            at <= list@.len(),
            kept@ == selected(list@.take(at as int), keep, id),
        decreases list@.len() - at,
    {
        let value: u64 = list[at];
        proof {
            let next = list@.take(at + 1);
            assert(next.drop_last() =~= list@.take(at as int));
            assert(next.last() == value);
        }
        let keeps_it: bool = match keep {
            Keep::Below => value < id,
            Keep::Above => value > id,
            Keep::Others => value != id,
        };
        if keeps_it {
            kept.push(value);
        }
        at = at + 1;
    }
    assert(list@.take(at as int) =~= list@);
    kept
}

/// The list with `id` put in at its place in the order, once.
pub fn insert_id(list: &Vec<u64>, id: u64) -> (longer: Vec<u64>)
    ensures
        longer@ == with_id(list@, id),
{
    let mut longer: Vec<u64> = select(list, Keep::Below, id);
    longer.push(id);
    let mut above: Vec<u64> = select(list, Keep::Above, id);
    longer.append(&mut above);
    longer
}

/// Finds the seeder `account`: its position, or the length of the list.
pub fn find_seeder(seeders: &Vec<Seeder>, account: AccountId) -> (at: usize)
    ensures
        at == first_seeder(views(seeders@), account, 0),
        at <= seeders@.len(),
        at < seeders@.len() <==> has_seeder(views(seeders@), account),
        at < seeders@.len() ==> seeders@[at as int].account == account,
{
    let mut at: usize = 0;
    while at < seeders.len()
        invariant
            at <= seeders@.len(),
            first_seeder(views(seeders@), account, 0) == first_seeder(
                views(seeders@),
                account,
                at as int,
            ),
            forall|i: int| 0 <= i < at ==> (#[trigger] views(seeders@)[i]).account != account,
        decreases seeders@.len() - at,
    {
        if seeders[at].account == account {
            assert(views(seeders@)[at as int].account == account);
            return at;
        }
        assert(views(seeders@)[at as int].account != account);
        at = at + 1;
    }
    at
}

/// Lets `account` pin the archive `id`.
pub fn pin(seeders: &mut Vec<Seeder>, account: AccountId, id: u64)
    ensures
        views(final(seeders)@) == pinned(views(old(seeders)@), account, id),
{
    let at: usize = find_seeder(seeders, account);
    if at < seeders.len() {
        let dats: Vec<u64> = insert_id(&seeders[at].dats, id);
        seeders.set(at, Seeder { account, dats });
    } else {
        let mut dats: Vec<u64> = Vec::new();
        dats.push(id);
        seeders.push(Seeder { account, dats });
    }
    assert(views(seeders@) =~= pinned(views(old(seeders)@), account, id));
}

/// Takes `account` out of the set.
pub fn remove_seeder(seeders: &mut Vec<Seeder>, account: AccountId)
    ensures
        views(final(seeders)@) == without_seeder(views(old(seeders)@), account),
{
    let at: usize = find_seeder(seeders, account);
    if at < seeders.len() {
        let _ = seeders.remove(at);
    }
    assert(views(seeders@) =~= without_seeder(views(old(seeders)@), account));
}

/// Takes the archive `id` from every seeder.
pub fn unpin(seeders: &Vec<Seeder>, id: u64) -> (left: Vec<Seeder>)
    ensures
        views(left@) == unpinned(views(seeders@), id),
{
    let mut left: Vec<Seeder> = Vec::new();
    let mut at: usize = 0;
    assert(views(seeders@).take(0) =~= Seq::empty());
    assert(views(left@) =~= Seq::empty());
    while at < seeders.len()
        invariant
            at <= seeders@.len(),
            views(left@) == unpinned(views(seeders@).take(at as int), id),
        decreases seeders@.len() - at,
    {
        let rest: Vec<u64> = select(&seeders[at].dats, Keep::Others, id);
        let ghost before = views(left@);
        proof {
            let next = views(seeders@).take(at + 1);
            assert(next.drop_last() =~= views(seeders@).take(at as int));
            assert(next.last() == seeders@[at as int]@);
        }
        if rest.len() > 0 {
            left.push(Seeder { account: seeders[at].account, dats: rest });
            assert(views(left@) =~= before.push(
                SeederView { account: seeders@[at as int].account, dats: rest@ },
            ));
        }
        at = at + 1;
    }
    assert(views(seeders@).take(at as int) =~= views(seeders@));
    left
}

} // verus!
