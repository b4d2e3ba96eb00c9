//! The challenge scheduler: the registries and the round-by-round state
//! machine that issues challenges and settles them.
//!
//! The scheduler owns the table of archives, the set of seeders, the pending
//! challenge and the list of archives removed in the running round. Every
//! operation runs to its end; one that is refused changes nothing. What an
//! operation has to tell the outside (an archive stored, a challenge issued,
//! a seeder that failed) is its result.

use vstd::prelude::*;
use crate::primitives::{H256, Public, Signature, AccountId, same_32};
use crate::error::Error;
use crate::encoding::{u64_le_bytes, u64_from_le_bytes, push_u64_le, append_bytes, read_u64_le};
use crate::crypto::{blake2_256_digest, blake2_256, ed25519_valid, ed25519_verify};
use crate::payload::{ParentHashInRoot, RootHashPayload, root_digest, root_digest_of};
use crate::inclusion::{Proof, verification_outcome};
use crate::registry::{
    DatRecord, has_id, has_key, first_with_id, registry_wf, stored, stored_id,
    total_length, find_id, store, tree_size_of, registry_is_wf, lemma_stored_wf, lemma_removed_wf,
    lemma_first_with_id,
};
use crate::seeders::{
    Seeder, SeederView, views, pinned, unpinned, without_seeder, seeders_wf, has_seeder, pin, unpin,
    remove_seeder, seeders_are_wf, lemma_pinned_wf, lemma_unpinned_wf, lemma_without_seeder_wf,
};

verus! {

/// Who makes a call: the host itself, or an account.
#[derive(Clone, Copy, Debug, PartialEq, Eq, Structural)]
pub enum Origin {
    Root,
    Signed(AccountId),
}

/// A demand for proof: the seeder has to show the chunk at `leaf_index` of
/// the archive `dat_key` before the round `deadline` ends.
#[derive(Clone, Copy, Debug, PartialEq, Eq)]
pub struct Challenge {
    pub id: u64,
    pub dat_key: Public,
    pub leaf_index: u64,
    pub deadline: u64,
}

/// The slot of a challenged seeder, with the number of challenges that are
/// pending on it. A slot is held while that number is not zero.
#[derive(Clone, Copy, Debug, PartialEq, Eq)]
pub struct SeederSlot {
    pub index: u64,
    pub seeder: AccountId,
    pub pending: u64,
}

/// A pending challenge and the slot of the seeder that has to answer it.
#[derive(Clone, Copy, Debug, PartialEq, Eq)]
pub struct PendingChallenge {
    pub challenge: Challenge,
    pub slot: SeederSlot,
}

/// A seeder let a deadline pass.
#[derive(Clone, Copy, Debug, PartialEq, Eq)]
pub struct ChallengeFailed {
    pub seeder: AccountId,
    pub dat_key: Public,
}

/// What one peer observed of another.
#[derive(Clone, Copy, Debug, PartialEq, Eq)]
pub struct Attestation {
    pub location: u8,
    pub latency: Option<u8>,
}

/// The state of a scheduler as a value.
#[verifier::ext_equal]
pub struct SchedulerView {
    /// The registered archives, in the order of their ids.
    pub dats: Seq<DatRecord>,
    /// The seeders, in the order in which they joined.
    pub seeders: Seq<SeederView>,
    /// The challenge that waits for its proof, if there is one.
    pub pending: Option<PendingChallenge>,
    /// The keys of the archives removed since the last round ended.
    pub removed: Seq<Public>,
    /// The id of the next challenge.
    pub next_challenge: u64,
    /// The index of the next slot.
    pub next_slot: u64,
    /// The number that goes into the next random draw.
    pub nonce: u64,
}

/// The random number of a round: the first eight bytes, least significant
/// first, of the digest of the seed of the round followed by the nonce.
pub open spec fn round_draw(seed: H256, nonce: u64) -> u64 {
    u64_from_le_bytes(blake2_256_digest(seed@ + u64_le_bytes(nonce))@)
}

/// The random number for a seeder that registers: as that of a round, with
/// the account of the seeder after the nonce.
pub open spec fn seeder_draw(seed: H256, nonce: u64, account: AccountId) -> u64 {
    u64_from_le_bytes(blake2_256_digest(seed@ + u64_le_bytes(nonce) + u64_le_bytes(account))@)
}

/// What storing an archive answers, from what was found of it: an invalid
/// signature and a tree without a countable, positive size are refused;
/// otherwise the answer is the id of the archive.
pub open spec fn record_outcome(
    dats: Seq<DatRecord>,
    key: Public,
    signature_valid: bool,
    tree_size: Option<u64>,
) -> Result<u64, Error> {
    if !signature_valid {
        Err(Error::VerificationFailed)
    } else if tree_size is None || tree_size->0 == 0 {
        Err(Error::InvalidTreeSize)
    } else {
        Ok(stored_id(dats, key) as u64)
    }
}

/// The size of a tree with these subtrees, if 64 bits can hold it.
pub open spec fn counted(children: Seq<ParentHashInRoot>) -> Option<u64> {
    if total_length(children) > u64::MAX {
        None
    } else {
        Some(total_length(children) as u64)
    }
}

impl SchedulerView {
    /// The shape of every state that the operations reach: the table of
    /// archives and the set of seeders are in shape, and a pending challenge
    /// has an id and a slot that were handed out, the slot counting one.
    pub open spec fn wf(self) -> bool {
        &&& registry_wf(self.dats)
        &&& seeders_wf(self.seeders, self.dats)
        &&& self.pending matches Some(pending) ==> {
            &&& pending.challenge.id < self.next_challenge
            &&& pending.slot.index < self.next_slot
            &&& pending.slot.pending == 1
        }
    }

    /// The state with an archive stored.
    pub open spec fn with_data(
        self,
        owner: AccountId,
        key: Public,
        root_hash: H256,
        root_signature: Signature,
        tree_size: u64,
    ) -> SchedulerView {
        SchedulerView {
            dats: stored(self.dats, owner, key, root_hash, root_signature, tree_size),
            ..self
        }
    }

    /// Whether `caller` may remove the archive `id`: it is registered and
    /// `caller` owns it.
    pub open spec fn owns(self, caller: AccountId, id: u64) -> bool {
        let at = first_with_id(self.dats, id, 0);
        at < self.dats.len() && self.dats[at].owner == caller
    }

    /// The state with the archive `id` removed: it leaves the table and every
    /// seeder, and its key is noted for the end of the round.
    pub open spec fn without_data(self, id: u64) -> SchedulerView {
        let at = first_with_id(self.dats, id, 0);
        SchedulerView {
            dats: self.dats.remove(at),
            seeders: unpinned(self.seeders, id),
            removed: self.removed.push(self.dats[at].key),
            ..self
        }
    }

    /// Whether a seeder can be given an archive: there is one, and the nonce
    /// has not run out.
    pub open spec fn can_pin(self) -> bool {
        self.dats.len() > 0 && self.nonce < u64::MAX
    }

    /// The archive that the random number `random` picks.
    pub open spec fn drawn_pin(self, random: u64) -> DatRecord {
        self.dats[random as int % self.dats.len() as int]
    }

    /// The state after `account` was given the archive that `random` picks.
    pub open spec fn with_pin(self, account: AccountId, random: u64) -> SchedulerView {
        if self.can_pin() {
            SchedulerView {
                seeders: pinned(self.seeders, account, self.drawn_pin(random).id),
                nonce: (self.nonce + 1) as u64,
                ..self
            }
        } else {
            self
        }
    }

    /// The state with the seeder `account` gone.
    pub open spec fn without_account(self, account: AccountId) -> SchedulerView {
        SchedulerView { seeders: without_seeder(self.seeders, account), ..self }
    }

    /// The state with no challenge pending.
    pub open spec fn cleared(self) -> SchedulerView {
        SchedulerView { pending: None, ..self }
    }

    /// Whether the challenge `challenge_id` is the pending one.
    pub open spec fn is_pending(self, challenge_id: u64) -> bool {
        self.pending is Some && self.pending->0.challenge.id == challenge_id
    }

    /// What a forced clearing answers: only the host may do it; a challenge
    /// that is not pending is cleared already; one that is pending must be
    /// that of the named seeder.
    pub open spec fn force_clear_outcome(
        self,
        origin: Origin,
        seeder: AccountId,
        challenge_id: u64,
    ) -> Result<(), Error> {
        if origin != Origin::Root {
            Err(Error::PermissionError)
        } else if self.is_pending(challenge_id) && self.pending->0.slot.seeder != seeder {
            Err(Error::InvalidState)
        } else {
            Ok(())
        }
    }

    /// The state after a forced clearing: the pending challenge goes if it
    /// is the one that was named and the clearing was not refused.
    pub open spec fn force_cleared(
        self,
        origin: Origin,
        seeder: AccountId,
        challenge_id: u64,
    ) -> SchedulerView {
        if self.force_clear_outcome(origin, seeder, challenge_id) is Ok && self.is_pending(
            challenge_id,
        ) {
            self.cleared()
        } else {
            self
        }
    }

    /// The challenge that `caller` may answer under the id `challenge_id`:
    /// the pending one, if it has that id and is that of `caller`.
    pub open spec fn assigned(self, caller: AccountId, challenge_id: u64) -> Result<
        Challenge,
        Error,
    > {
        if self.is_pending(challenge_id) && self.pending->0.slot.seeder == caller {
            Ok(self.pending->0.challenge)
        } else {
            Err(Error::PermissionError)
        }
    }

    /// What a submitted proof answers: the caller must be the challenged
    /// seeder, and the proof must verify for the challenged leaf under the
    /// key of the challenged archive.
    pub open spec fn submission_outcome(
        self,
        caller: AccountId,
        challenge_id: u64,
        proof: Proof,
        claimed_root: H256,
        chunk_content: Seq<u8>,
    ) -> Result<(), Error> {
        match self.assigned(caller, challenge_id) {
            Ok(challenge) => verification_outcome(
                proof,
                challenge.leaf_index,
                challenge.dat_key,
                claimed_root,
                chunk_content,
            ),
            Err(error) => Err(error),
        }
    }

    /// The state after a proof was submitted: the challenge is cleared if the
    /// proof was accepted, and nothing changes if it was refused.
    pub open spec fn submitted(
        self,
        caller: AccountId,
        challenge_id: u64,
        proof: Proof,
        claimed_root: H256,
        chunk_content: Seq<u8>,
    ) -> SchedulerView {
        if self.submission_outcome(caller, challenge_id, proof, claimed_root, chunk_content)
            is Ok {
            self.cleared()
        } else {
            self
        }
    }

    /// Whether a round may begin with a new challenge: none is pending,
    /// there is a seeder, and none of the counters has run out.
    pub open spec fn can_issue(self) -> bool {
        &&& self.pending is None
        &&& self.seeders.len() > 0
        &&& self.nonce < u64::MAX
        &&& self.next_challenge < u64::MAX
        &&& self.next_slot < u64::MAX
    }

    /// The seeder that the random number `random` picks.
    pub open spec fn drawn_seeder(self, random: u64) -> SeederView {
        self.seeders[random as int % self.seeders.len() as int]
    }

    /// The archive of the picked seeder that `random` picks.
    pub open spec fn drawn_dat(self, random: u64) -> DatRecord {
        let seeder = self.drawn_seeder(random);
        let id = seeder.dats[random as int % seeder.dats.len() as int];
        self.dats[first_with_id(self.dats, id, 0)]
    }

    /// The challenge that a round beginning at `round` issues on the random
    /// number `random`: to the picked seeder, on the picked archive, for the
    /// leaf `random mod tree size`. Its length is the leaf plus one, so
    /// between one and the tree size; the deadline stops at the last round
    /// that 64 bits can name.
    pub open spec fn drawn_challenge(self, round: u64, random: u64) -> PendingChallenge {
        let dat = self.drawn_dat(random);
        let leaf = (random as int % dat.tree_size as int) as u64;
        let deadline = if round + leaf + 1 > u64::MAX {
            u64::MAX
        } else {
            (round + leaf + 1) as u64
        };
        PendingChallenge {
            challenge: Challenge {
                id: self.next_challenge,
                dat_key: dat.key,
                leaf_index: leaf,
                deadline,
            },
            slot: SeederSlot {
                index: self.next_slot,
                seeder: self.drawn_seeder(random).account,
                pending: 1,
            },
        }
    }

    /// The state after a round began at `round` with the random number
    /// `random`.
    pub open spec fn issued(self, round: u64, random: u64) -> SchedulerView {
        if self.can_issue() {
            SchedulerView {
                pending: Some(self.drawn_challenge(round, random)),
                next_challenge: (self.next_challenge + 1) as u64,
                next_slot: (self.next_slot + 1) as u64,
                nonce: (self.nonce + 1) as u64,
                ..self
            }
        } else {
            self
        }
    }

    /// Whether the deadline of the pending challenge is the round `round`.
    pub open spec fn timed_out(self, round: u64) -> bool {
        self.pending is Some && self.pending->0.challenge.deadline == round
    }

    /// Whether the archive of the pending challenge was removed since the
    /// last round ended.
    pub open spec fn lost_its_dat(self) -> bool {
        self.pending is Some && self.removed.contains(self.pending->0.challenge.dat_key)
    }

    /// The state after the round `round` ended: a seeder whose deadline it
    /// was leaves the set and its challenge goes; else a challenge whose
    /// archive was removed goes; and the list of removed archives is empty.
    pub open spec fn round_ended(self, round: u64) -> SchedulerView {
        SchedulerView {
            seeders: if self.timed_out(round) {
                without_seeder(self.seeders, self.pending->0.slot.seeder)
            } else {
                self.seeders
            },
            pending: if self.timed_out(round) || self.lost_its_dat() {
                None
            } else {
                self.pending
            },
            removed: Seq::empty(),
            ..self
        }
    }

    /// What the end of the round `round` reports: the seeder that let its
    /// deadline pass, and the archive it was challenged on.
    pub open spec fn round_end_report(self, round: u64) -> Option<ChallengeFailed> {
        if self.timed_out(round) {
            Some(
                ChallengeFailed {
                    seeder: self.pending->0.slot.seeder,
                    dat_key: self.pending->0.challenge.dat_key,
                },
            )
        } else {
            None
        }
    }
}

/// A challenge is issued on a registered archive, for a leaf inside its tree,
/// with a deadline after the round in which it is issued and no further off
/// than the tree is large.
pub proof fn lemma_drawn_challenge_in_tree(state: SchedulerView, round: u64, random: u64)
    requires
        state.wf(),
        state.can_issue(),
    ensures
        has_key(state.dats, state.drawn_challenge(round, random).challenge.dat_key),
        state.drawn_dat(random).key == state.drawn_challenge(round, random).challenge.dat_key,
        state.drawn_challenge(round, random).challenge.leaf_index < state.drawn_dat(
            random,
        ).tree_size,
        round < u64::MAX ==> round < state.drawn_challenge(round, random).challenge.deadline,
        state.drawn_challenge(round, random).challenge.deadline - round <= state.drawn_dat(
            random,
        ).tree_size,
        has_seeder(state.seeders, state.drawn_challenge(round, random).slot.seeder),
{
    let seeder_at = random as int % state.seeders.len() as int;
    let seeder = state.seeders[seeder_at];
    assert(seeder.dats.len() > 0);
    let pin_at = random as int % seeder.dats.len() as int;
    let id = seeder.dats[pin_at];
    assert(has_id(state.dats, state.seeders[seeder_at].dats[pin_at]));
    lemma_first_with_id(state.dats, id, 0);
    let at = first_with_id(state.dats, id, 0);
    assert(state.dats[at].tree_size >= 1);
}

/// Between two rounds at most one challenge is pending, and the state keeps
/// its shape when a round begins.
pub proof fn lemma_issued_wf(state: SchedulerView, round: u64, random: u64)
    requires
        state.wf(),
    ensures
        state.issued(round, random).wf(),
        state.pending is Some ==> state.issued(round, random) == state,
{
}

/// Storing an archive with a tree of at least one byte keeps the shape of the
/// state.
pub proof fn lemma_with_data_wf(
    state: SchedulerView,
    owner: AccountId,
    key: Public,
    root_hash: H256,
    root_signature: Signature,
    tree_size: u64,
)
    requires
        state.wf(),
        state.dats.len() <= u64::MAX,
        tree_size >= 1,
    ensures
        state.with_data(owner, key, root_hash, root_signature, tree_size).wf(),
{
    lemma_stored_wf(state.dats, owner, key, root_hash, root_signature, tree_size);
    let after = stored(state.dats, owner, key, root_hash, root_signature, tree_size);
    assert forall|i: int, k: int|
        0 <= i < state.seeders.len() && 0 <= k < state.seeders[i].dats.len() implies has_id(
        after,
        #[trigger] state.seeders[i].dats[k],
    ) by {
        assert(has_id(state.dats, state.seeders[i].dats[k]));
    }
}

/// Removing a registered archive keeps the shape of the state.
pub proof fn lemma_without_data_wf(state: SchedulerView, id: u64)
    requires
        state.wf(),
        has_id(state.dats, id),
    ensures
        state.without_data(id).wf(),
        !has_id(state.without_data(id).dats, id),
{
    lemma_first_with_id(state.dats, id, 0);
    let at = first_with_id(state.dats, id, 0);
    lemma_removed_wf(state.dats, at);
    lemma_unpinned_wf(state.seeders, state.dats, state.dats.remove(at), id);
}

/// Giving a seeder an archive keeps the shape of the state.
pub proof fn lemma_with_pin_wf(state: SchedulerView, account: AccountId, random: u64)
    requires
        state.wf(),
    ensures
        state.with_pin(account, random).wf(),
{
    if state.can_pin() {
        let at = random as int % state.dats.len() as int;
        assert(state.dats[at].id == state.drawn_pin(random).id);
        lemma_pinned_wf(state.seeders, state.dats, account, state.drawn_pin(random).id);
    }
}

/// A seeder that leaves keeps the shape of the state.
pub proof fn lemma_without_account_wf(state: SchedulerView, account: AccountId)
    requires
        state.wf(),
    ensures
        state.without_account(account).wf(),
{
    lemma_without_seeder_wf(state.seeders, state.dats, account);
}

/// The end of a round keeps the shape of the state.
pub proof fn lemma_round_ended_wf(state: SchedulerView, round: u64)
    requires
        state.wf(),
    ensures
        state.round_ended(round).wf(),
{
    if state.timed_out(round) {
        lemma_without_seeder_wf(state.seeders, state.dats, state.pending->0.slot.seeder);
    }
}

/// Submitting a proof that is refused changes nothing: the state after it is
/// the state before it, so the same proof, submitted again, is refused for the
/// same reason and again changes nothing.
pub proof fn lemma_refused_submission_repeats(
    state: SchedulerView,
    caller: AccountId,
    challenge_id: u64,
    proof: Proof,
    claimed_root: H256,
    chunk_content: Seq<u8>,
)
    requires
        state.submission_outcome(caller, challenge_id, proof, claimed_root, chunk_content) is Err,
    ensures
        state.submitted(caller, challenge_id, proof, claimed_root, chunk_content) == state,
        state.submitted(caller, challenge_id, proof, claimed_root, chunk_content).submission_outcome(
            caller,
            challenge_id,
            proof,
            claimed_root,
            chunk_content,
        ) == state.submission_outcome(caller, challenge_id, proof, claimed_root, chunk_content),
        state.submitted(caller, challenge_id, proof, claimed_root, chunk_content).submitted(
            caller,
            challenge_id,
            proof,
            claimed_root,
            chunk_content,
        ) == state,
{
}

/// A forced clearing of a challenge that is not pending, because it never was
/// or because it was cleared before, succeeds and changes nothing.
pub proof fn lemma_force_clear_of_cleared(
    state: SchedulerView,
    seeder: AccountId,
    challenge_id: u64,
)
    requires
        !state.is_pending(challenge_id),
    ensures
        state.force_clear_outcome(Origin::Root, seeder, challenge_id) is Ok,
        state.force_cleared(Origin::Root, seeder, challenge_id) == state,
{
}

/// A challenge that was cleared by force is not pending any more, so a second
/// clearing of it succeeds and changes nothing.
pub proof fn lemma_force_clear_twice(state: SchedulerView, seeder: AccountId, challenge_id: u64)
    requires
        state.force_clear_outcome(Origin::Root, seeder, challenge_id) is Ok,
    ensures
        !state.force_cleared(Origin::Root, seeder, challenge_id).is_pending(challenge_id),
        state.force_cleared(Origin::Root, seeder, challenge_id).force_clear_outcome(
            Origin::Root,
            seeder,
            challenge_id,
        ) is Ok,
        state.force_cleared(Origin::Root, seeder, challenge_id).force_cleared(
            Origin::Root,
            seeder,
            challenge_id,
        ) == state.force_cleared(Origin::Root, seeder, challenge_id),
{
}

/// The scheduler.
pub struct Scheduler {
    dats: Vec<DatRecord>,
    seeders: Vec<Seeder>,
    pending: Option<PendingChallenge>,
    removed: Vec<Public>,
    next_challenge: u64,
    next_slot: u64,
    nonce: u64,
}

impl View for Scheduler {
    type V = SchedulerView;

    closed spec fn view(&self) -> SchedulerView {
        SchedulerView {
            dats: self.dats@,
            seeders: views(self.seeders@),
            pending: self.pending,
            removed: self.removed@,
            next_challenge: self.next_challenge,
            next_slot: self.next_slot,
            nonce: self.nonce,
        }
    }
}

/// The parts of a scheduler, as a host stores them between calls.
#[derive(Clone, Debug, PartialEq, Eq)]
pub struct SchedulerParts {
    pub dats: Vec<DatRecord>,
    pub seeders: Vec<Seeder>,
    pub pending: Option<PendingChallenge>,
    pub removed: Vec<Public>,
    pub next_challenge: u64,
    pub next_slot: u64,
    pub nonce: u64,
}

impl View for SchedulerParts {
    type V = SchedulerView;

    open spec fn view(&self) -> SchedulerView {
        SchedulerView {
            dats: self.dats@,
            seeders: views(self.seeders@),
            pending: self.pending,
            removed: self.removed@,
            next_challenge: self.next_challenge,
            next_slot: self.next_slot,
            nonce: self.nonce,
        }
    }
}

/// Whether `keys` holds `key`.
pub fn holds_key(keys: &Vec<Public>, key: &Public) -> (held: bool)
    ensures
        held == keys@.contains(*key),
{
    let mut at: usize = 0;
    while at < keys.len()
        invariant
            at <= keys@.len(),
            forall|i: int| 0 <= i < at ==> keys@[i] != *key,
        decreases keys@.len() - at,
    {
        if same_32(&keys[at], key) {
            return true;
        }
        at = at + 1;
    }
    false
}

/// Draws the random number of a round from the seed of the round and the
/// nonce.
pub fn draw_for_round(seed: &H256, nonce: u64) -> (random: u64)
    ensures
        random == round_draw(*seed, nonce),
{
    let mut bytes: Vec<u8> = Vec::new();
    append_bytes(&mut bytes, seed.as_slice());
    push_u64_le(&mut bytes, nonce);
    assert(bytes@ =~= seed@ + u64_le_bytes(nonce));
    let digest: H256 = blake2_256(bytes.as_slice());
    read_u64_le(digest.as_slice())
}

/// Draws the random number for a seeder that registers.
pub fn draw_for_seeder(seed: &H256, nonce: u64, account: AccountId) -> (random: u64)
    ensures
        random == seeder_draw(*seed, nonce, account),
{
    let mut bytes: Vec<u8> = Vec::new();
    append_bytes(&mut bytes, seed.as_slice());
    push_u64_le(&mut bytes, nonce);
    push_u64_le(&mut bytes, account);
    assert(bytes@ =~= seed@ + u64_le_bytes(nonce) + u64_le_bytes(account));
    let digest: H256 = blake2_256(bytes.as_slice());
    read_u64_le(digest.as_slice())
}

impl Scheduler {
    /// A scheduler that knows no archive and no seeder.
    pub fn new() -> (scheduler: Scheduler)
        ensures
            scheduler@.wf(),
            scheduler@.dats.len() == 0,
            scheduler@.seeders.len() == 0,
            scheduler@.pending is None,
            scheduler@.removed.len() == 0,
            scheduler@.next_challenge == 0,
            scheduler@.next_slot == 0,
            scheduler@.nonce == 0,
    {
        Scheduler {
            dats: Vec::new(),
            seeders: Vec::new(),
            pending: None,
            removed: Vec::new(),
            next_challenge: 0,
            next_slot: 0,
            nonce: 0,
        }
    }

    /// Puts a scheduler together from stored parts, if they have the shape
    /// of a state that the operations reach.
    pub fn from_parts(parts: SchedulerParts) -> (scheduler: Option<Scheduler>)
        ensures
            match scheduler {
                Some(scheduler) => scheduler@ == parts@ && scheduler@.wf(),
                None => !parts@.wf(),
            },
    {
        if !registry_is_wf(&parts.dats) {
            return None;
        }
        if !seeders_are_wf(&parts.seeders, &parts.dats) {
            return None;
        }
        match parts.pending {
            Some(pending) => {
                if pending.challenge.id >= parts.next_challenge || pending.slot.index
                    >= parts.next_slot || pending.slot.pending != 1 {
                    return None;
                }
            },
            None => {},
        }
        Some(
            Scheduler {
                dats: parts.dats,
                seeders: parts.seeders,
                pending: parts.pending,
                removed: parts.removed,
                next_challenge: parts.next_challenge,
                next_slot: parts.next_slot,
                nonce: parts.nonce,
            },
        )
    }

    /// Takes the scheduler apart, for a host to store.
    pub fn into_parts(self) -> (parts: SchedulerParts)
        ensures
            parts@ == self@,
    {
        SchedulerParts {
            dats: self.dats,
            seeders: self.seeders,
            pending: self.pending,
            removed: self.removed,
            next_challenge: self.next_challenge,
            next_slot: self.next_slot,
            nonce: self.nonce,
        }
    }

    /// The registered archives, in the order of their ids.
    pub fn dats(&self) -> (dats: &Vec<DatRecord>)
        ensures
            dats@ == self@.dats,
    {
        &self.dats
    }

    /// The seeders, in the order in which they joined.
    pub fn seeders(&self) -> (seeders: &Vec<Seeder>)
        ensures
            views(seeders@) == self@.seeders,
    {
        &self.seeders
    }

    /// The pending challenge.
    pub fn pending(&self) -> (pending: Option<PendingChallenge>)
        ensures
            pending == self@.pending,
    {
        self.pending
    }

    /// The keys of the archives removed since the last round ended.
    pub fn removed(&self) -> (removed: &Vec<Public>)
        ensures
            removed@ == self@.removed,
    {
        &self.removed
    }

    /// The number that goes into the next random draw.
    pub fn nonce(&self) -> (nonce: u64)
        ensures
            nonce == self@.nonce,
    {
        self.nonce
    }

    /// Stores an archive, given what was found of it: whether its signature
    /// is valid, and the size of its tree if that could be counted.
    pub fn record_data(
        &mut self,
        owner: AccountId,
        key: Public,
        root_hash: H256,
        root_signature: Signature,
        signature_valid: bool,
        tree_size: Option<u64>,
    ) -> (result: Result<u64, Error>)
        requires
            old(self)@.wf(),
        ensures
            result == record_outcome(old(self)@.dats, key, signature_valid, tree_size),
            final(self)@ == if result is Ok {
                old(self)@.with_data(owner, key, root_hash, root_signature, tree_size->0)
            } else {
                old(self)@
            },
            final(self)@.wf(),
    {
        if !signature_valid {
            return Err(Error::VerificationFailed);
        }
        let size: u64 = match tree_size {
            Some(size) => size,
            None => {
                return Err(Error::InvalidTreeSize);
            },
        };
        if size == 0 {
            return Err(Error::InvalidTreeSize);
        }
        let count: usize = self.dats.len();
        proof {
            lemma_with_data_wf(self@, owner, key, root_hash, root_signature, size);
        }
        let id: u64 = store(&mut self.dats, owner, key, root_hash, root_signature, size);
        Ok(id)
    }

    /// Registers an archive, or a new root of a known one.
    ///
    /// `root_signature` must be a signature of the root digest of `root`
    /// under `key`, and the tree must hold at least one byte. A new archive
    /// gets the first free id; a known one keeps its id and gets the new
    /// root, size and owner. Returns the id.
    pub fn register_data(
        &mut self,
        caller: AccountId,
        key: Public,
        root: &RootHashPayload,
        root_signature: Signature,
    ) -> (result: Result<u64, Error>)
        requires
            old(self)@.wf(),
        ensures
            result == record_outcome(
                old(self)@.dats,
                key,
                ed25519_valid(root_signature@, root_digest(root.children@)@, key@),
                counted(root.children@),
            ),
            final(self)@ == if result is Ok {
                old(self)@.with_data(
                    caller,
                    key,
                    root_digest(root.children@),
                    root_signature,
                    total_length(root.children@) as u64,
                )
            } else {
                old(self)@
            },
            final(self)@.wf(),
    {
        let root_hash: H256 = root_digest_of(&root.children);
        let valid: bool = ed25519_verify(&root_signature, root_hash.as_slice(), &key);
        let size: Option<u64> = tree_size_of(&root.children);
        self.record_data(caller, key, root_hash, root_signature, valid, size)
    }

    /// Registers an archive for `account` without a check of the signature.
    /// Only the host may do this.
    pub fn force_register_data(
        &mut self,
        origin: &Origin,
        account: AccountId,
        key: Public,
        root: &RootHashPayload,
        root_signature: Signature,
    ) -> (result: Result<u64, Error>)
        requires
            old(self)@.wf(),
        ensures
            result == if *origin != Origin::Root {
                Err(Error::PermissionError)
            } else {
                record_outcome(old(self)@.dats, key, true, counted(root.children@))
            },
            final(self)@ == if result is Ok {
                old(self)@.with_data(
                    account,
                    key,
                    root_digest(root.children@),
                    root_signature,
                    total_length(root.children@) as u64,
                )
            } else {
                old(self)@
            },
            final(self)@.wf(),
    {
        match origin {
            Origin::Root => {},
            Origin::Signed(_) => {
                return Err(Error::PermissionError);
            },
        }
        let root_hash: H256 = root_digest_of(&root.children);
        let size: Option<u64> = tree_size_of(&root.children);
        self.record_data(account, key, root_hash, root_signature, true, size)
    }

    /// Removes the archive `id`. Only its owner may do this. The archive
    /// leaves every seeder; a challenge on it is cleared, without penalty,
    /// when the round ends. Returns the key of the archive.
    pub fn unregister_data(&mut self, caller: AccountId, id: u64) -> (result: Result<Public, Error>)
        requires
            old(self)@.wf(),
        ensures
            result == if old(self)@.owns(caller, id) {
                Ok(old(self)@.dats[first_with_id(old(self)@.dats, id, 0)].key)
            } else {
                Err::<Public, Error>(Error::PermissionError)
            },
            final(self)@ == if result is Ok {
                old(self)@.without_data(id)
            } else {
                old(self)@
            },
            final(self)@.wf(),
    {
        let at: usize = find_id(&self.dats, id);
        if at >= self.dats.len() {
            return Err(Error::PermissionError);
        }
        if self.dats[at].owner != caller {
            return Err(Error::PermissionError);
        }
        let key: Public = self.dats[at].key;
        proof {
            lemma_without_data_wf(self@, id);
        }
        let _ = self.dats.remove(at);
        let left: Vec<Seeder> = unpin(&self.seeders, id);
        self.seeders = left;
        self.removed.push(key);
        Ok(key)
    }

    /// Gives `caller` the archive that the random number `random` picks
    /// among the registered ones. Nothing happens while no archive is
    /// registered. Returns the key of the archive.
    pub fn pin_drawn(&mut self, caller: AccountId, random: u64) -> (pinned: Option<Public>)
        requires
            old(self)@.wf(),
        ensures
            pinned == if old(self)@.can_pin() {
                Some(old(self)@.drawn_pin(random).key)
            } else {
                None
            },
            final(self)@ == old(self)@.with_pin(caller, random),
            final(self)@.wf(),
    {
        if self.dats.len() == 0 || self.nonce == u64::MAX {
            return None;
        }
        let at: usize = (random % (self.dats.len() as u64)) as usize;
        let dat: DatRecord = self.dats[at];
        proof {
            lemma_with_pin_wf(self@, caller, random);
        }
        pin(&mut self.seeders, caller, dat.id);
        self.nonce = self.nonce + 1;
        Some(dat.key)
    }

    /// Registers `caller` as a seeder of one more archive, picked by a
    /// random number drawn from `seed`, the nonce and the account. Returns
    /// the key of the archive.
    pub fn register_seeder(&mut self, caller: AccountId, seed: &H256) -> (pinned: Option<Public>)
        requires
            old(self)@.wf(),
        ensures
            pinned == if old(self)@.can_pin() {
                Some(old(self)@.drawn_pin(seeder_draw(*seed, old(self)@.nonce, caller)).key)
            } else {
                None
            },
            final(self)@ == old(self)@.with_pin(
                caller,
                seeder_draw(*seed, old(self)@.nonce, caller),
            ),
            final(self)@.wf(),
    {
        let random: u64 = draw_for_seeder(seed, self.nonce, caller);
        self.pin_drawn(caller, random)
    }

    /// Takes `caller` out of the set of seeders, with all that it pins.
    pub fn unregister_seeder(&mut self, caller: AccountId)
        requires
            old(self)@.wf(),
        ensures
            final(self)@ == old(self)@.without_account(caller),
            final(self)@.wf(),
    {
        proof {
            lemma_without_account_wf(self@, caller);
        }
        remove_seeder(&mut self.seeders, caller);
    }

    /// Takes note of what `caller` observed. The state does not change; the
    /// result is what the host has to announce.
    pub fn submit_attestation(&self, caller: AccountId, attestation: Attestation) -> (noted: (
        AccountId,
        Attestation,
    ))
        ensures
            noted == (caller, attestation),
    {
        (caller, attestation)
    }

    /// Clears the challenge `challenge_id` of `seeder` and gives its slot
    /// back. Only the host may do this. A challenge that is not pending is
    /// cleared already: the call succeeds and changes nothing.
    pub fn force_clear_challenge(
        &mut self,
        origin: &Origin,
        seeder: AccountId,
        challenge_id: u64,
    ) -> (result: Result<(), Error>)
        ensures
            result == old(self)@.force_clear_outcome(*origin, seeder, challenge_id),
            final(self)@ == old(self)@.force_cleared(*origin, seeder, challenge_id),
            old(self)@.wf() ==> final(self)@.wf(),
    {
        match origin {
            Origin::Root => {},
            Origin::Signed(_) => {
                return Err(Error::PermissionError);
            },
        }
        match self.pending {
            Some(pending) => {
                if pending.challenge.id == challenge_id {
                    if pending.slot.seeder != seeder {
                        return Err(Error::InvalidState);
                    }
                    self.pending = None;
                }
            },
            None => {},
        }
        Ok(())
    }

    /// The challenge that `caller` may answer under the id `challenge_id`.
    pub fn assigned_challenge(&self, caller: AccountId, challenge_id: u64) -> (result: Result<
        Challenge,
        Error,
    >)
        ensures
            result == self@.assigned(caller, challenge_id),
    {
        match self.pending {
            Some(pending) => {
                if pending.challenge.id == challenge_id && pending.slot.seeder == caller {
                    Ok(pending.challenge)
                } else {
                    Err(Error::PermissionError)
                }
            },
            None => Err(Error::PermissionError),
        }
    }

    /// Takes the proof of `caller` for the challenge `challenge_id`.
    ///
    /// The caller must be the challenged seeder. A proof that verifies
    /// clears the challenge. One that does not is refused with the reason,
    /// and the challenge stays as it is: the seeder may try again until the
    /// deadline.
    pub fn submit_proof(
        &mut self,
        caller: AccountId,
        challenge_id: u64,
        proof: &Proof,
        claimed_root: &H256,
        chunk_content: Vec<u8>,
    ) -> (result: Result<(), Error>)
        ensures
            result == old(self)@.submission_outcome(
                caller,
                challenge_id,
                *proof,
                *claimed_root,
                chunk_content@,
            ),
            final(self)@ == old(self)@.submitted(
                caller,
                challenge_id,
                *proof,
                *claimed_root,
                chunk_content@,
            ),
            result is Err ==> final(self)@ == old(self)@,
            old(self)@.wf() ==> final(self)@.wf(),
    {
        let challenge: Challenge = match self.assigned_challenge(caller, challenge_id) {
            Ok(challenge) => challenge,
            Err(error) => {
                return Err(error);
            },
        };
        match proof.verify(challenge.leaf_index, &challenge.dat_key, claimed_root, chunk_content) {
            Ok(()) => {
                self.pending = None;
                Ok(())
            },
            Err(error) => Err(error),
        }
    }

    /// Begins the round `round` with the random number `random`: issues a
    /// challenge if none is pending and there is a seeder. Returns the
    /// challenge that was issued.
    pub fn issue_challenge(&mut self, round: u64, random: u64) -> (issued: Option<PendingChallenge>)
        requires
            old(self)@.wf(),
        ensures
            issued == if old(self)@.can_issue() {
                Some(old(self)@.drawn_challenge(round, random))
            } else {
                None
            },
            final(self)@ == old(self)@.issued(round, random),
            final(self)@.wf(),
    {
        if self.pending.is_some() || self.seeders.len() == 0 || self.nonce == u64::MAX
            || self.next_challenge == u64::MAX || self.next_slot == u64::MAX {
            return None;
        }
        let seeder_at: usize = (random % (self.seeders.len() as u64)) as usize;
        let account: AccountId = self.seeders[seeder_at].account;
        proof {
            let seeders = views(self.seeders@);
            assert(seeders[seeder_at as int].dats.len() > 0);
            assert(seeders[seeder_at as int] == self.seeders@[seeder_at as int]@);
        }
        let pins: usize = self.seeders[seeder_at].dats.len();
        let pin_at: usize = (random % (pins as u64)) as usize;
        let id: u64 = self.seeders[seeder_at].dats[pin_at];
        proof {
            let seeders = views(self.seeders@);
            assert(has_id(self.dats@, seeders[seeder_at as int].dats[pin_at as int]));
        }
        let at: usize = find_id(&self.dats, id);
        let dat: DatRecord = self.dats[at];
        let leaf: u64 = random % dat.tree_size;
        let deadline: u64 = round.saturating_add(leaf + 1);
        let pending: PendingChallenge = PendingChallenge {
            challenge: Challenge {
                id: self.next_challenge,
                dat_key: dat.key,
                leaf_index: leaf,
                deadline,
            },
            slot: SeederSlot { index: self.next_slot, seeder: account, pending: 1 },
        };
        self.pending = Some(pending);
        self.next_challenge = self.next_challenge + 1;
        self.next_slot = self.next_slot + 1;
        self.nonce = self.nonce + 1;
        Some(pending)
    }

    /// Begins the round `round`: draws the random number of the round from
    /// `seed` and the nonce, and issues a challenge on it if none is pending
    /// and there is a seeder. Returns the challenge that was issued.
    pub fn on_round_begin(&mut self, round: u64, seed: &H256) -> (issued: Option<PendingChallenge>)
        requires
            old(self)@.wf(),
        ensures
            issued == if old(self)@.can_issue() {
                Some(old(self)@.drawn_challenge(round, round_draw(*seed, old(self)@.nonce)))
            } else {
                None
            },
            final(self)@ == old(self)@.issued(round, round_draw(*seed, old(self)@.nonce)),
            final(self)@.wf(),
    {
        let random: u64 = draw_for_round(seed, self.nonce);
        self.issue_challenge(round, random)
    }

    /// Ends the round `round`.
    ///
    /// A seeder whose deadline is this round has failed: it leaves the set
    /// of seeders with all that it pins, its challenge is cleared, and the
    /// failure is returned for the host to punish and announce. Else a
    /// challenge on an archive that was removed during the round is cleared
    /// without penalty. The list of removed archives is emptied.
    pub fn on_round_end(&mut self, round: u64) -> (failed: Option<ChallengeFailed>)
        requires
            old(self)@.wf(),
        ensures
            failed == old(self)@.round_end_report(round),
            final(self)@ == old(self)@.round_ended(round),
            final(self)@.wf(),
    {
        let mut failed: Option<ChallengeFailed> = None;
        proof {
            lemma_round_ended_wf(self@, round);
        }
        match self.pending {
            Some(pending) => {
                if pending.challenge.deadline == round {
                    remove_seeder(&mut self.seeders, pending.slot.seeder);
                    self.pending = None;
                    failed = Some(
                        ChallengeFailed {
                            seeder: pending.slot.seeder,
                            dat_key: pending.challenge.dat_key,
                        },
                    );
                } else if holds_key(&self.removed, &pending.challenge.dat_key) {
                    self.pending = None;
                }
            },
            None => {},
        }
        self.removed = Vec::new();
        failed
    }
}

} // verus!
