//! The three kinds of hashed payload and their canonical bytes.
//!
//! A digest is taken over a byte string laid out by hand: one byte for the
//! kind of payload, then the fields of that kind, integers as eight bytes,
//! most significant first.

use vstd::prelude::*;
use crate::primitives::H256;
use crate::encoding::{u64_be_bytes, lemma_u64_be_bytes_injective, push_u64_be, append_bytes};
use crate::crypto::{blake2_256_digest, blake2_256};

verus! {

/// The kind byte of a leaf chunk.
pub const CHUNK_HASH_TYPE: u8 = 0;

/// The kind byte of a parent node.
pub const PARENT_HASH_TYPE: u8 = 1;

/// The kind byte of a root.
pub const ROOT_HASH_TYPE: u8 = 2;

/// What is hashed for a leaf: a chunk of the archive.
#[derive(Clone, Debug, PartialEq, Eq)]
pub struct ChunkHashPayload {
    pub hash_type: u8,
    pub chunk_length: u64,
    pub chunk_content: Vec<u8>,
}

/// What is hashed for a parent node. The digests of the two children belong
/// to the node and are kept with it; they are not part of the hashed bytes.
#[derive(Clone, Copy, Debug, PartialEq, Eq)]
pub struct ParentHashPayload {
    pub hash_type: u8,
    pub total_length: u64,
    pub child_hashes: [H256; 2],
}

/// One root of a subtree, as it stands in a root payload.
#[derive(Clone, Copy, Debug, PartialEq, Eq)]
pub struct ParentHashInRoot {
    pub hash: H256,
    pub hash_number: u64,
    pub total_length: u64,
}

/// What is hashed for the root of an archive: the roots of its subtrees, in
/// the order of their indices.
#[derive(Clone, Debug, PartialEq, Eq)]
pub struct RootHashPayload {
    pub hash_type: u8,
    pub children: Vec<ParentHashInRoot>,
}

/// The canonical bytes of a leaf: kind, length, content.
pub open spec fn chunk_bytes(hash_type: u8, chunk_length: u64, chunk_content: Seq<u8>) -> Seq<u8> {
    seq![hash_type] + u64_be_bytes(chunk_length) + chunk_content
}

/// The canonical bytes of a parent node: kind, total length.
pub open spec fn parent_bytes(hash_type: u8, total_length: u64) -> Seq<u8> {
    seq![hash_type] + u64_be_bytes(total_length)
}

/// The 48 bytes of one entry of a root payload: digest, index, total length.
pub open spec fn root_entry_bytes(entry: ParentHashInRoot) -> Seq<u8> {
    entry.hash@ + u64_be_bytes(entry.hash_number) + u64_be_bytes(entry.total_length)
}

/// The bytes of the entries of a root payload, one after the other.
pub open spec fn root_entries_bytes(children: Seq<ParentHashInRoot>) -> Seq<u8>
    decreases children.len(),
{
    if children.len() == 0 {
        Seq::empty()
    } else {
        root_entries_bytes(children.drop_last()) + root_entry_bytes(children.last())
    }
}

/// The canonical bytes of a root: kind, then its entries.
pub open spec fn root_bytes(hash_type: u8, children: Seq<ParentHashInRoot>) -> Seq<u8> {
    seq![hash_type] + root_entries_bytes(children)
}

/// A payload that has canonical bytes and, over them, a digest.
pub trait HashPayload {
    /// The byte string that is hashed.
    spec fn canonical_bytes(&self) -> Seq<u8>;

    /// Lays out the byte string that is hashed.
    fn canonical(&self) -> (bytes: Vec<u8>)
        ensures
            bytes@ == self.canonical_bytes(),
    ;

    /// The digest of the payload: that of its canonical bytes.
    fn hash(&self) -> (digest: H256)
        ensures
            digest == blake2_256_digest(self.canonical_bytes()),
    ;
}

impl ChunkHashPayload {
    /// The payload of the chunk `chunk_content`.
    pub fn new(chunk_content: Vec<u8>) -> (payload: ChunkHashPayload)
        ensures
            payload.hash_type == CHUNK_HASH_TYPE,
            payload.chunk_length == chunk_content@.len(),
            payload.chunk_content == chunk_content,
    {
        ChunkHashPayload {
            hash_type: CHUNK_HASH_TYPE,
            chunk_length: chunk_content.len() as u64,
            chunk_content,
        }
    }
}

impl HashPayload for ChunkHashPayload {
    open spec fn canonical_bytes(&self) -> Seq<u8> {
        chunk_bytes(self.hash_type, self.chunk_length, self.chunk_content@)
    }

    fn canonical(&self) -> (bytes: Vec<u8>) {
        let mut bytes: Vec<u8> = Vec::new();
        bytes.push(self.hash_type);
        push_u64_be(&mut bytes, self.chunk_length);
        append_bytes(&mut bytes, self.chunk_content.as_slice());
        assert(bytes@ =~= self.canonical_bytes());
        bytes
    }

    fn hash(&self) -> (digest: H256) {
        let bytes: Vec<u8> = self.canonical();
        blake2_256(bytes.as_slice())
    }
}

impl ParentHashPayload {
    /// The payload of the parent of two nodes that hold `total_length` bytes
    /// between them.
    pub fn new(total_length: u64, child_hashes: [H256; 2]) -> (payload: ParentHashPayload)
        ensures
            payload.hash_type == PARENT_HASH_TYPE,
            payload.total_length == total_length,
            payload.child_hashes == child_hashes,
    {
        ParentHashPayload { hash_type: PARENT_HASH_TYPE, total_length, child_hashes }
    }
}

impl HashPayload for ParentHashPayload {
    open spec fn canonical_bytes(&self) -> Seq<u8> {
        parent_bytes(self.hash_type, self.total_length)
    }

    fn canonical(&self) -> (bytes: Vec<u8>) {
        let mut bytes: Vec<u8> = Vec::new();
        bytes.push(self.hash_type);
        push_u64_be(&mut bytes, self.total_length);
        assert(bytes@ =~= self.canonical_bytes());
        bytes
    }

    fn hash(&self) -> (digest: H256) {
        let bytes: Vec<u8> = self.canonical();
        blake2_256(bytes.as_slice())
    }
}

impl RootHashPayload {
    /// The root payload over `children`.
    pub fn new(children: Vec<ParentHashInRoot>) -> (payload: RootHashPayload)
        ensures
            payload.hash_type == ROOT_HASH_TYPE,
            payload.children == children,
    {
        RootHashPayload { hash_type: ROOT_HASH_TYPE, children }
    }
}

impl HashPayload for RootHashPayload {
    open spec fn canonical_bytes(&self) -> Seq<u8> {
        root_bytes(self.hash_type, self.children@)
    }

    fn canonical(&self) -> (bytes: Vec<u8>) {
        lay_out_root(self.hash_type, &self.children)
    }

    fn hash(&self) -> (digest: H256) {
        let bytes: Vec<u8> = self.canonical();
        blake2_256(bytes.as_slice())
    }
}

/// Lays out the canonical bytes of a root of the kind `hash_type` over
/// `children`.
pub fn lay_out_root(hash_type: u8, children: &Vec<ParentHashInRoot>) -> (bytes: Vec<u8>)
    ensures
        bytes@ == root_bytes(hash_type, children@),
{
    let mut bytes: Vec<u8> = Vec::new();
    bytes.push(hash_type);
    let mut at: usize = 0;
    assert(children@.take(0) =~= Seq::empty());
    while at < children.len()
        invariant
            at <= children@.len(),
            bytes@ == seq![hash_type] + root_entries_bytes(children@.take(at as int)),
        decreases children@.len() - at,
    {
        let entry: ParentHashInRoot = children[at];
        let ghost before = bytes@;
        append_bytes(&mut bytes, entry.hash.as_slice());
        push_u64_be(&mut bytes, entry.hash_number);
        push_u64_be(&mut bytes, entry.total_length);
        proof {
            let next = children@.take(at + 1);
            assert(next.drop_last() =~= children@.take(at as int));
            assert(next.last() == entry);
            assert(bytes@ =~= before + root_entry_bytes(entry));
            assert(bytes@ =~= seq![hash_type] + root_entries_bytes(next));
        }
        at = at + 1;
    }
    assert(children@.take(at as int) =~= children@);
    bytes
}

/// The root digest of an archive with the subtrees `children`.
pub open spec fn root_digest(children: Seq<ParentHashInRoot>) -> H256 {
    blake2_256_digest(root_bytes(ROOT_HASH_TYPE, children))
}

/// Computes the root digest of an archive with the subtrees `children`.
pub fn root_digest_of(children: &Vec<ParentHashInRoot>) -> (digest: H256)
    ensures
        digest == root_digest(children@),
{
    let bytes: Vec<u8> = lay_out_root(ROOT_HASH_TYPE, children);
    blake2_256(bytes.as_slice())
}

/// The canonical bytes of a leaf say what its length and its content are: two
/// leaves of one kind byte with the same bytes have the same length and the
/// same content.
pub proof fn lemma_chunk_bytes_injective(
    hash_type: u8,
    length_a: u64,
    content_a: Seq<u8>,
    length_b: u64,
    content_b: Seq<u8>,
)
    requires
        chunk_bytes(hash_type, length_a, content_a) == chunk_bytes(hash_type, length_b, content_b),
    ensures
        length_a == length_b,
        content_a == content_b,
{
    let a = chunk_bytes(hash_type, length_a, content_a);
    let b = chunk_bytes(hash_type, length_b, content_b);
    assert(a.subrange(1, 9) =~= u64_be_bytes(length_a));
    assert(b.subrange(1, 9) =~= u64_be_bytes(length_b));
    lemma_u64_be_bytes_injective(length_a, length_b);
    assert(a.skip(9) =~= content_a);
    assert(b.skip(9) =~= content_b);
}

/// The same length and content give the same digest.
pub proof fn lemma_chunk_digest_deterministic(a: ChunkHashPayload, b: ChunkHashPayload)
    requires
        a.hash_type == b.hash_type,
        a.chunk_length == b.chunk_length,
        a.chunk_content@ == b.chunk_content@,
    ensures
        blake2_256_digest(a.canonical_bytes()) == blake2_256_digest(b.canonical_bytes()),
{
}

/// A root payload of `n` entries is laid out in `1 + 48 * n` bytes.
pub proof fn lemma_root_bytes_len(hash_type: u8, children: Seq<ParentHashInRoot>)
    ensures
        root_bytes(hash_type, children).len() == 1 + 48 * children.len(),
    decreases children.len(),
{
    if children.len() > 0 {
        lemma_root_bytes_len(hash_type, children.drop_last());
    }
}

} // verus!
