//! The table of registered archives.
//!
//! An archive is known by its public key and, for short, by a small integer
//! id. The table is kept in the order of the ids; a new archive gets the first
//! id that is free, so an id given back is used again.

use vstd::prelude::*;
use crate::primitives::{H256, Public, Signature, AccountId, same_32};
use crate::payload::ParentHashInRoot;

verus! {

/// A registered archive.
#[derive(Clone, Copy, Debug, PartialEq, Eq)]
pub struct DatRecord {
    pub id: u64,
    pub key: Public,
    pub owner: AccountId,
    pub root_hash: H256,
    pub root_signature: Signature,
    pub tree_size: u64,
}

/// Whether an archive with this id is registered.
pub open spec fn has_id(dats: Seq<DatRecord>, id: u64) -> bool {
    exists|i: int| 0 <= i < dats.len() && (#[trigger] dats[i]).id == id
}

/// Whether an archive with this key is registered.
pub open spec fn has_key(dats: Seq<DatRecord>, key: Public) -> bool {
    exists|i: int| 0 <= i < dats.len() && (#[trigger] dats[i]).key == key
}

/// The first position at or after `from` that holds the key `key`; the length
/// of the table if there is none.
pub open spec fn first_with_key(dats: Seq<DatRecord>, key: Public, from: int) -> int
    decreases dats.len() - from,
{
    if 0 <= from < dats.len() && dats[from].key != key {
        first_with_key(dats, key, from + 1)
    } else {
        from
    }
}

/// The first position at or after `from` that holds the id `id`; the length of
/// the table if there is none.
pub open spec fn first_with_id(dats: Seq<DatRecord>, id: u64, from: int) -> int
    decreases dats.len() - from,
{
    if 0 <= from < dats.len() && dats[from].id != id {
        first_with_id(dats, id, from + 1)
    } else {
        from
    }
}

/// The first position at or after `from` whose record does not carry its own
/// position as id; the length of the table if there is none.
pub open spec fn first_gap(dats: Seq<DatRecord>, from: int) -> int
    decreases dats.len() - from,
{
    if 0 <= from < dats.len() && dats[from].id == from {
        first_gap(dats, from + 1)
    } else {
        from
    }
}

/// The shape of the table: ids grow from each record to the next, no key
/// occurs twice, and every tree holds at least one byte.
pub open spec fn registry_wf(dats: Seq<DatRecord>) -> bool {
    &&& forall|i: int, j: int| 0 <= i < j < dats.len() ==> dats[i].id < dats[j].id
    &&& forall|i: int, j: int| 0 <= i < j < dats.len() ==> dats[i].key != dats[j].key
    &&& forall|i: int| 0 <= i < dats.len() ==> (#[trigger] dats[i]).tree_size >= 1
}

/// The id under which the key `key` is stored, or will be.
pub open spec fn stored_id(dats: Seq<DatRecord>, key: Public) -> int {
    let at = first_with_key(dats, key, 0);
    if at < dats.len() {
        dats[at].id as int
    } else {
        first_gap(dats, 0)
    }
}

/// The table after the archive `key` was stored: its record is replaced
/// where the key is known, and put in at the first free id where it is new.
pub open spec fn stored(
    dats: Seq<DatRecord>,
    owner: AccountId,
    key: Public,
    root_hash: H256,
    root_signature: Signature,
    tree_size: u64,
) -> Seq<DatRecord> {
    let at = first_with_key(dats, key, 0);
    let id = stored_id(dats, key);
    let record = DatRecord { id: id as u64, key, owner, root_hash, root_signature, tree_size };
    if at < dats.len() {
        dats.update(at, record)
    } else {
        dats.insert(id, record)
    }
}

/// The sum of the lengths of the subtrees of a root.
pub open spec fn total_length(children: Seq<ParentHashInRoot>) -> nat
    decreases children.len(),
{
    if children.len() == 0 {
        0
    } else {
        total_length(children.drop_last()) + children.last().total_length as nat
    }
}

/// Where a scan for a key ends.
pub proof fn lemma_first_with_key(dats: Seq<DatRecord>, key: Public, from: int)
    requires
        0 <= from <= dats.len(),
    ensures
        from <= first_with_key(dats, key, from) <= dats.len(),
        first_with_key(dats, key, from) < dats.len() ==> dats[first_with_key(dats, key, from)].key
            == key,
        forall|i: int|
            from <= i < first_with_key(dats, key, from) ==> (#[trigger] dats[i]).key != key,
    decreases dats.len() - from,
{
    if from < dats.len() && dats[from].key != key {
        lemma_first_with_key(dats, key, from + 1);
    }
}

/// Where a scan for an id ends.
pub proof fn lemma_first_with_id(dats: Seq<DatRecord>, id: u64, from: int)
    requires
        0 <= from <= dats.len(),
    ensures
        from <= first_with_id(dats, id, from) <= dats.len(),
        first_with_id(dats, id, from) < dats.len() ==> dats[first_with_id(dats, id, from)].id == id,
        forall|i: int| from <= i < first_with_id(dats, id, from) ==> (#[trigger] dats[i]).id != id,
    decreases dats.len() - from,
{
    if from < dats.len() && dats[from].id != id {
        lemma_first_with_id(dats, id, from + 1);
    }
}

/// Where a scan for a free id ends.
pub proof fn lemma_first_gap(dats: Seq<DatRecord>, from: int)
    requires
        0 <= from <= dats.len(),
    ensures
        from <= first_gap(dats, from) <= dats.len(),
        first_gap(dats, from) < dats.len() ==> dats[first_gap(dats, from)].id != first_gap(
            dats,
            from,
        ),
        forall|i: int| from <= i < first_gap(dats, from) ==> (#[trigger] dats[i]).id == i,
    decreases dats.len() - from,
{
    if from < dats.len() && dats[from].id == from {
        lemma_first_gap(dats, from + 1);
    }
}

/// In a table of the right shape the first free id is carried by no record,
/// and every smaller id is carried by one.
pub proof fn lemma_first_gap_is_free(dats: Seq<DatRecord>)
    requires
        registry_wf(dats),
        dats.len() <= u64::MAX,
    ensures
        !has_id(dats, first_gap(dats, 0) as u64),
        forall|id: u64| id < first_gap(dats, 0) ==> has_id(dats, id),
        first_gap(dats, 0) <= u64::MAX,
{
    lemma_first_gap(dats, 0);
    let gap = first_gap(dats, 0);
    assert forall|i: int| 0 <= i < dats.len() implies (#[trigger] dats[i]).id != gap by {
        if i > gap {
            assert(dats[gap].id < dats[i].id);
            if gap > 0 {
                assert(dats[gap - 1].id < dats[gap].id);
            }
        }
    }
    assert forall|id: u64| id < gap implies has_id(dats, id) by {
        assert(dats[id as int].id == id);
    }
}

/// Storing an archive keeps the shape of the table.
pub proof fn lemma_stored_wf(
    dats: Seq<DatRecord>,
    owner: AccountId,
    key: Public,
    root_hash: H256,
    root_signature: Signature,
    tree_size: u64,
)
    requires
        registry_wf(dats),
        dats.len() <= u64::MAX,
        tree_size >= 1,
    ensures
        registry_wf(stored(dats, owner, key, root_hash, root_signature, tree_size)),
        0 <= stored_id(dats, key) <= u64::MAX,
        has_id(
            stored(dats, owner, key, root_hash, root_signature, tree_size),
            stored_id(dats, key) as u64,
        ),
        forall|id: u64|
            has_id(dats, id) ==> has_id(
                stored(dats, owner, key, root_hash, root_signature, tree_size),
                id,
            ),
{
    let after = stored(dats, owner, key, root_hash, root_signature, tree_size);
    let at = first_with_key(dats, key, 0);
    let id = stored_id(dats, key);
    lemma_first_with_key(dats, key, 0);
    lemma_first_gap(dats, 0);
    lemma_first_gap_is_free(dats);
    if at < dats.len() {
        assert(after[at].id == id);
        assert forall|other: u64| has_id(dats, other) implies has_id(after, other) by {
            let i = choose|i: int| 0 <= i < dats.len() && (#[trigger] dats[i]).id == other;
            assert(after[i].id == other);
        }
    } else {
        let gap = first_gap(dats, 0);
        assert(after[gap].id == id);
        assert forall|i: int, j: int| 0 <= i < j < after.len() implies after[i].id
            < after[j].id by {
            if j == gap {
                assert(dats[i].id == i);
            } else if i == gap {
                assert(dats[j - 1].id != gap);
                if gap > 0 {
                    assert(dats[gap - 1].id < dats[j - 1].id || gap - 1 == j - 1);
                }
            } else if i < gap && j > gap {
                assert(dats[i].id < dats[j - 1].id);
            }
        }
        assert forall|i: int, j: int| 0 <= i < j < after.len() implies after[i].key
            != after[j].key by {
            if i < gap && j > gap {
                assert(dats[i].key != dats[j - 1].key);
            }
        }
        assert forall|other: u64| has_id(dats, other) implies has_id(after, other) by {
            let i = choose|i: int| 0 <= i < dats.len() && (#[trigger] dats[i]).id == other;
            if i < gap {
                assert(after[i].id == other);
            } else {
                assert(after[i + 1].id == other);
            }
        }
    }
}

/// Taking one record out keeps the shape of the table, and only the id of
/// that record leaves.
pub proof fn lemma_removed_wf(dats: Seq<DatRecord>, at: int)
    requires
        registry_wf(dats),
        0 <= at < dats.len(),
    ensures
        registry_wf(dats.remove(at)),
        !has_id(dats.remove(at), dats[at].id),
        !has_key(dats.remove(at), dats[at].key),
        forall|id: u64| has_id(dats, id) && id != dats[at].id ==> has_id(dats.remove(at), id),
{
    let after = dats.remove(at);
    assert forall|i: int, j: int| 0 <= i < j < after.len() implies after[i].id < after[j].id
        && after[i].key != after[j].key by {
        let before_i = if i < at { i } else { i + 1 };
        let before_j = if j < at { j } else { j + 1 };
        assert(dats[before_i].id < dats[before_j].id);
    }
    assert forall|i: int| 0 <= i < after.len() implies (#[trigger] after[i]).tree_size >= 1
        && after[i].id != dats[at].id && after[i].key != dats[at].key by {
        let before = if i < at { i } else { i + 1 };
        assert(dats[before].tree_size >= 1);
        if before < at {
            assert(dats[before].id < dats[at].id);
        } else {
            assert(dats[at].id < dats[before].id);
        }
    }
    assert forall|id: u64| has_id(dats, id) && id != dats[at].id implies has_id(after, id) by {
        let i = choose|i: int| 0 <= i < dats.len() && (#[trigger] dats[i]).id == id;
        if i < at {
            assert(after[i].id == id);
        } else {
            assert(after[i - 1].id == id);
        }
    }
}

/// Finds the record with the key `key`: its position, or the length of the
/// table.
pub fn find_key(dats: &Vec<DatRecord>, key: &Public) -> (at: usize)
    ensures
        at == first_with_key(dats@, *key, 0),
        at <= dats@.len(),
        at < dats@.len() <==> has_key(dats@, *key),
        at < dats@.len() ==> dats@[at as int].key == *key,
{
    let mut at: usize = 0;
    proof {
        lemma_first_with_key(dats@, *key, 0);
    }
    while at < dats.len()
        invariant
            at <= dats@.len(),
            first_with_key(dats@, *key, 0) == first_with_key(dats@, *key, at as int),
            forall|i: int| 0 <= i < at ==> (#[trigger] dats@[i]).key != *key,
        decreases dats@.len() - at,
    {
        if same_32(&dats[at].key, key) {
            return at;
        }
        at = at + 1;
    }
    at
}

/// Finds the record with the id `id`: its position, or the length of the
/// table.
pub fn find_id(dats: &Vec<DatRecord>, id: u64) -> (at: usize)
    ensures
        at == first_with_id(dats@, id, 0),
        at <= dats@.len(),
        at < dats@.len() <==> has_id(dats@, id),
        at < dats@.len() ==> dats@[at as int].id == id,
{
    let mut at: usize = 0;
    while at < dats.len()
        invariant
            at <= dats@.len(),
            first_with_id(dats@, id, 0) == first_with_id(dats@, id, at as int),
            forall|i: int| 0 <= i < at ==> (#[trigger] dats@[i]).id != id,
        decreases dats@.len() - at,
    {
        if dats[at].id == id {
            return at;
        }
        at = at + 1;
    }
    at
}

/// Finds the first free id.
pub fn free_id(dats: &Vec<DatRecord>) -> (at: usize)
    ensures
        at == first_gap(dats@, 0),
        at <= dats@.len(),
{
    let mut at: usize = 0;
    while at < dats.len()
        invariant
            at <= dats@.len(),
            first_gap(dats@, 0) == first_gap(dats@, at as int),
        decreases dats@.len() - at,
    {
        if dats[at].id != at as u64 {
            return at;
        }
        at = at + 1;
    }
    at
}

/// Whether a record before the position `at` holds the key of the record at
/// `at`.
pub fn key_occurs_before(dats: &Vec<DatRecord>, at: usize) -> (occurs: bool)
    requires
        at < dats@.len(),
    ensures
        occurs == exists|i: int| 0 <= i < at && (#[trigger] dats@[i]).key == dats@[at as int].key,
{
    let mut before: usize = 0;
    while before < at
        invariant
            before <= at < dats@.len(),
            forall|i: int| 0 <= i < before ==> (#[trigger] dats@[i]).key != dats@[at as int].key,
        decreases at - before,
    {
        if same_32(&dats[before].key, &dats[at].key) {
            return true;
        }
        before = before + 1;
    }
    false
}

/// Checks the shape of a table of archives.
pub fn registry_is_wf(dats: &Vec<DatRecord>) -> (ok: bool)
    ensures
        ok == registry_wf(dats@),
{
    let mut at: usize = 0;
    while at < dats.len()
        invariant
            at <= dats@.len(),
            forall|i: int, j: int| 0 <= i < j < at ==> dats@[i].id < dats@[j].id,
            forall|i: int, j: int| 0 <= i < j < at ==> dats@[i].key != dats@[j].key,
            forall|i: int| 0 <= i < at ==> (#[trigger] dats@[i]).tree_size >= 1,
        decreases dats@.len() - at,
    {
        if dats[at].tree_size == 0 {
            return false;
        }
        if at > 0 && dats[at - 1].id >= dats[at].id {
            return false;
        }
        if key_occurs_before(dats, at) {
            proof {
                let i = choose|i: int|
                    0 <= i < at && (#[trigger] dats@[i]).key == dats@[at as int].key;
                assert(dats@[i].key == dats@[at as int].key);
            }
            return false;
        }
        proof {
            assert forall|i: int, j: int| 0 <= i < j < at + 1 implies dats@[i].id
                < dats@[j].id by {
                if j == at && i < at - 1 {
                    assert(dats@[i].id < dats@[at - 1].id);
                }
            }
        }
        at = at + 1;
    }
    true
}

/// Stores the archive `key`: replaces its record where the key is known, and
/// puts it in at the first free id where it is new. Returns the id.
pub fn store(
    dats: &mut Vec<DatRecord>,
    owner: AccountId,
    key: Public,
    root_hash: H256,
    root_signature: Signature,
    tree_size: u64,
) -> (id: u64)
    requires
        registry_wf(old(dats)@),
        tree_size >= 1,
    ensures
        final(dats)@ == stored(old(dats)@, owner, key, root_hash, root_signature, tree_size),
        id == stored_id(old(dats)@, key),
        registry_wf(final(dats)@),
{
    let at: usize = find_key(dats, &key);
    let count: usize = dats.len();
    proof {
        assert(dats@.len() == count);
        lemma_stored_wf(dats@, owner, key, root_hash, root_signature, tree_size);
    }
    if at < count {
        let id: u64 = dats[at].id;
        dats.set(at, DatRecord { id, key, owner, root_hash, root_signature, tree_size });
        id
    } else {
        let gap: usize = free_id(dats);
        let id: u64 = gap as u64;
        dats.insert(gap, DatRecord { id, key, owner, root_hash, root_signature, tree_size });
        id
    }
}

/// The size of the tree below a root: the sum of the lengths of its subtrees,
/// unless that is more than 64 bits can hold.
pub fn tree_size_of(children: &Vec<ParentHashInRoot>) -> (size: Option<u64>)
    ensures
        match size {
            Some(sum) => sum == total_length(children@),
            None => total_length(children@) > u64::MAX,
        },
{
    let mut sum: u64 = 0;
    let mut at: usize = 0;
    assert(children@.take(0) =~= Seq::empty());
    while at < children.len()
        invariant
            at <= children@.len(),
            sum == total_length(children@.take(at as int)),
        decreases children@.len() - at,
    {
        proof {
            let next = children@.take(at + 1);
            assert(next.drop_last() =~= children@.take(at as int));
            lemma_total_length_grows(children@, at + 1);
        }
        match sum.checked_add(children[at].total_length) {
            Some(more) => {
                sum = more;
            },
            None => {
                return None;
            },
        }
        at = at + 1;
    }
    assert(children@.take(at as int) =~= children@);
    Some(sum)
}

/// The sum over a part of the subtrees is no more than the sum over all.
pub proof fn lemma_total_length_grows(children: Seq<ParentHashInRoot>, part: int)
    requires
        0 <= part <= children.len(),
    ensures
        total_length(children.take(part)) <= total_length(children),
    decreases children.len() - part,
{
    if part < children.len() {
        let next = children.take(part + 1);
        assert(next.drop_last() =~= children.take(part));
        lemma_total_length_grows(children, part + 1);
    } else {
        assert(children.take(part) =~= children);
    }
}

} // verus!
