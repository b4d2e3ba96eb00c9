//! Inclusion proofs and their verification.
//!
//! A proof names a leaf, lists nodes of the tree in the order of their
//! indices, and carries a signature over the root that it claims. It is
//! checked against the chunk that the leaf stands for and against the key of
//! the archive.

use vstd::prelude::*;
use crate::primitives::{H256, Public, Signature, same_32};
use crate::error::Error;
use crate::node::{Node, contains_index};
use crate::flat_tree::orphan_indices;
use crate::payload::{
    ParentHashInRoot, ChunkHashPayload, HashPayload, chunk_bytes, root_digest, root_digest_of,
    CHUNK_HASH_TYPE,
};
use crate::crypto::{blake2_256_digest, ed25519_valid, ed25519_verify};

verus! {

/// Evidence that a seeder holds a chunk.
#[derive(Clone, Debug, PartialEq, Eq)]
pub struct Proof {
    pub index: u64,
    pub nodes: Vec<Node>,
    pub signature: Option<Signature>,
}

/// Whether the indices of `nodes` grow from each node to the next, so that no
/// index occurs twice.
pub open spec fn strictly_increasing(nodes: Seq<Node>) -> bool {
    forall|i: int, j: int| 0 <= i < j < nodes.len() ==> nodes[i].index < nodes[j].index
}

/// Whether `nodes` holds a node with this index and this digest.
pub open spec fn holds_leaf(nodes: Seq<Node>, index: u64, digest: H256) -> bool {
    exists|i: int|
        0 <= i < nodes.len() && #[trigger] nodes[i].index == index && nodes[i].hash == digest
}

/// The entry that a node makes in a root payload.
pub open spec fn root_entry(node: Node) -> ParentHashInRoot {
    ParentHashInRoot { hash: node.hash, hash_number: node.index, total_length: node.size }
}

/// The entries of those of `nodes` whose index is among `orphans`, in the
/// order of `nodes`.
pub open spec fn orphan_entries(nodes: Seq<Node>, orphans: Seq<u64>) -> Seq<ParentHashInRoot>
    decreases nodes.len(),
{
    if nodes.len() == 0 {
        Seq::empty()
    } else {
        let before = orphan_entries(nodes.drop_last(), orphans);
        if orphans.contains(nodes.last().index) {
            before.push(root_entry(nodes.last()))
        } else {
            before
        }
    }
}

/// The node that an entry of a root payload stands for.
pub open spec fn node_of(entry: ParentHashInRoot) -> Node {
    Node { index: entry.hash_number, hash: entry.hash, size: entry.total_length }
}

/// The nodes that the entries of a root payload stand for.
pub open spec fn nodes_of(children: Seq<ParentHashInRoot>) -> Seq<Node> {
    Seq::new(children.len(), |i: int| node_of(children[i]))
}

/// The digest of the chunk `chunk_content` as a leaf.
pub open spec fn chunk_digest(chunk_content: Seq<u8>) -> H256 {
    blake2_256_digest(chunk_bytes(CHUNK_HASH_TYPE, chunk_content.len() as u64, chunk_content))
}

/// The digest of the root that `nodes` make for a tree whose last index is
/// `leaf_index`.
pub open spec fn proved_root(nodes: Seq<Node>, leaf_index: u64) -> H256 {
    root_digest(orphan_entries(nodes, orphan_indices(leaf_index as nat)))
}

/// The verdict on a proof, from what the checks found.
///
/// The checks are made in this order, and the first that fails decides: the
/// proof is signed; the signature over the claimed root is valid; the proof is
/// about the challenged leaf; its nodes are in order and hold the digest of
/// the chunk at that leaf; its roots hash to the claimed root.
pub open spec fn verdict_of(
    signed: bool,
    signature_valid: bool,
    proves_leaf: bool,
    leaf_found: bool,
    root_matches: bool,
) -> Result<(), Error> {
    if !signed {
        Err(Error::UnsignedProof)
    } else if !signature_valid {
        Err(Error::VerificationFailed)
    } else if !proves_leaf {
        Err(Error::ProvesWrongChunk)
    } else if !leaf_found {
        Err(Error::ChunkHashVerificationFailed)
    } else if !root_matches {
        Err(Error::RootHashVerificationFailed)
    } else {
        Ok(())
    }
}

/// The verdict on `proof` for the challenged leaf `leaf_index` of the archive
/// with the key `dat_key`, given the root that the seeder claims and the
/// content of the chunk.
pub open spec fn verification_outcome(
    proof: Proof,
    leaf_index: u64,
    dat_key: Public,
    claimed_root: H256,
    chunk_content: Seq<u8>,
) -> Result<(), Error> {
    verdict_of(
        proof.signature is Some,
        proof.signature is Some && ed25519_valid(proof.signature->0@, claimed_root@, dat_key@),
        proof.index == leaf_index,
        proof.well_formed() && holds_leaf(proof.nodes@, leaf_index, chunk_digest(chunk_content)),
        proved_root(proof.nodes@, leaf_index) == claimed_root,
    )
}

/// Decides on a proof from what the checks found; see [`verdict_of`].
pub fn verdict(
    signed: bool,
    signature_valid: bool,
    proves_leaf: bool,
    leaf_found: bool,
    root_matches: bool,
) -> (result: Result<(), Error>)
    ensures
        result == verdict_of(signed, signature_valid, proves_leaf, leaf_found, root_matches),
{
    if !signed {
        Err(Error::UnsignedProof)
    } else if !signature_valid {
        Err(Error::VerificationFailed)
    } else if !proves_leaf {
        Err(Error::ProvesWrongChunk)
    } else if !leaf_found {
        Err(Error::ChunkHashVerificationFailed)
    } else if !root_matches {
        Err(Error::RootHashVerificationFailed)
    } else {
        Ok(())
    }
}

/// The roots of a tree, listed in a proof, hash to the root digest of the
/// tree: where every subtree of a root payload sits at an orphan index of the
/// tree whose last index is `max_index`, a proof that lists those subtrees as
/// its nodes proves the digest of that payload.
pub proof fn lemma_orphans_reproduce_root(children: Seq<ParentHashInRoot>, max_index: u64)
    requires
        forall|i: int|
            0 <= i < children.len() ==> orphan_indices(max_index as nat).contains(
                (#[trigger] children[i]).hash_number,
            ),
    ensures
        orphan_entries(nodes_of(children), orphan_indices(max_index as nat)) == children,
        proved_root(nodes_of(children), max_index) == root_digest(children),
    decreases children.len(),
{
    let orphans = orphan_indices(max_index as nat);
    if children.len() > 0 {
        let shorter = children.drop_last();
        assert forall|i: int| 0 <= i < shorter.len() implies orphans.contains(
            (#[trigger] shorter[i]).hash_number,
        ) by {
            assert(shorter[i] == children[i]);
        }
        lemma_orphans_reproduce_root(shorter, max_index);
        assert(nodes_of(children).drop_last() =~= nodes_of(shorter));
        assert(orphans.contains(children[children.len() - 1].hash_number));
        assert(orphan_entries(nodes_of(children), orphans) =~= children);
    } else {
        assert(orphan_entries(nodes_of(children), orphans) =~= children);
    }
}

impl Proof {
    /// The shape that a proof must have: its nodes stand in the order of
    /// their indices, no index twice.
    pub open spec fn well_formed(&self) -> bool {
        strictly_increasing(self.nodes@)
    }

    /// Checks the shape of the proof.
    pub fn is_well_formed(&self) -> (ok: bool)
        ensures
            ok == self.well_formed(),
    {
        if self.nodes.len() == 0 {
            return true;
        }
        let mut at: usize = 1;
        while at < self.nodes.len()
            invariant
                1 <= at <= self.nodes@.len(),
                forall|i: int, j: int|
                    0 <= i < j < at ==> self.nodes@[i].index < self.nodes@[j].index,
            decreases self.nodes@.len() - at,
        {
            if self.nodes[at - 1].index >= self.nodes[at].index {
                return false;
            }
            proof {
                assert forall|i: int, j: int| 0 <= i < j < at + 1 implies self.nodes@[i].index
                    < self.nodes@[j].index by {
                    if j == at && i < at - 1 {
                        assert(self.nodes@[i].index < self.nodes@[at - 1].index);
                    }
                }
            }
            at = at + 1;
        }
        true
    }

    /// Finds the node with the index `index` by binary search.
    pub fn locate(&self, index: u64) -> (found: Option<usize>)
        requires
            self.well_formed(),
        ensures
            match found {
                Some(at) => at < self.nodes@.len() && self.nodes@[at as int].index == index,
                None => forall|i: int| 0 <= i < self.nodes@.len() ==> self.nodes@[i].index != index,
            },
    {
        let mut low: usize = 0;
        let mut high: usize = self.nodes.len();
        while low < high
            invariant
                low <= high <= self.nodes@.len(),
                strictly_increasing(self.nodes@),
                forall|i: int| 0 <= i < low ==> self.nodes@[i].index < index,
                forall|i: int| high <= i < self.nodes@.len() ==> self.nodes@[i].index > index,
            decreases high - low,
        {
            let middle: usize = low + (high - low) / 2;
            let here: u64 = self.nodes[middle].index;
            if here == index {
                return Some(middle);
            } else if here < index {
                low = middle + 1;
            } else {
                high = middle;
            }
        }
        None
    }

    /// The entries of a root payload that this proof gives for a tree whose
    /// last index is `max_index`: its nodes at the orphan indices of that
    /// tree, in the order of their indices.
    pub fn root_children(&self, max_index: u64) -> (children: Vec<ParentHashInRoot>)
        ensures
            children@ == orphan_entries(self.nodes@, orphan_indices(max_index as nat)),
    {
        let orphans: Vec<u64> = Node::get_orphan_indeces(max_index);
        let mut children: Vec<ParentHashInRoot> = Vec::new();
        let mut at: usize = 0;
        assert(self.nodes@.take(0) =~= Seq::empty());
        while at < self.nodes.len()
            invariant
                at <= self.nodes@.len(),
                orphans@ == orphan_indices(max_index as nat),
                children@ == orphan_entries(self.nodes@.take(at as int), orphans@),
            decreases self.nodes@.len() - at,
        {
            let node: Node = self.nodes[at];
            proof {
                let next = self.nodes@.take(at + 1);
                assert(next.drop_last() =~= self.nodes@.take(at as int));
                assert(next.last() == node);
            }
            if contains_index(&orphans, node.index) {
                children.push(
                    ParentHashInRoot {
                        hash: node.hash,
                        hash_number: node.index,
                        total_length: node.size,
                    },
                );
            }
            at = at + 1;
        }
        assert(self.nodes@.take(at as int) =~= self.nodes@);
        children
    }

    /// Whether the proof holds the digest `digest` at the leaf `leaf_index`.
    /// A proof whose nodes are out of order holds nothing.
    pub fn holds_leaf_digest(&self, leaf_index: u64, digest: &H256) -> (held: bool)
        ensures
            held == (self.well_formed() && holds_leaf(self.nodes@, leaf_index, *digest)),
    {
        if !self.is_well_formed() {
            return false;
        }
        match self.locate(leaf_index) {
            Some(at) => {
                let held: bool = same_32(&self.nodes[at].hash, digest);
                proof {
                    if !held {
                        assert forall|i: int|
                            0 <= i < self.nodes@.len() && #[trigger] self.nodes@[i].index
                                == leaf_index implies self.nodes@[i].hash != *digest by {
                            if i < at {
                                assert(self.nodes@[i].index < self.nodes@[at as int].index);
                            } else if i > at {
                                assert(self.nodes@[at as int].index < self.nodes@[i].index);
                            }
                        }
                    }
                }
                held
            },
            None => false,
        }
    }

    /// Verifies the proof for the challenged leaf `leaf_index` of the archive
    /// with the key `dat_key`.
    ///
    /// The proof must be signed, and the signature must be one of
    /// `claimed_root` under `dat_key`; the proof must be about `leaf_index`;
    /// its nodes must hold, at that leaf, the digest of `chunk_content`; and
    /// its nodes at the orphan indices must hash to `claimed_root`.
    pub fn verify(
        &self,
        leaf_index: u64,
        dat_key: &Public,
        claimed_root: &H256,
        chunk_content: Vec<u8>,
    ) -> (result: Result<(), Error>)
        ensures
            result == verification_outcome(
                *self,
                leaf_index,
                *dat_key,
                *claimed_root,
                chunk_content@,
            ),
    {
        let signed: bool = self.signature.is_some();
        let signature_valid: bool = match &self.signature {
            Some(signature) => ed25519_verify(signature, claimed_root.as_slice(), dat_key),
            None => false,
        };
        let proves_leaf: bool = self.index == leaf_index;
        let chunk: H256 = ChunkHashPayload::new(chunk_content).hash();
        let leaf_found: bool = self.holds_leaf_digest(leaf_index, &chunk);
        let root: H256 = root_digest_of(&self.root_children(leaf_index));
        let root_matches: bool = same_32(&root, claimed_root);
        verdict(signed, signature_valid, proves_leaf, leaf_found, root_matches)
    }
}

} // verus!
