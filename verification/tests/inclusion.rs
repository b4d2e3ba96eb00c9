use dat_verify::error::Error;
use dat_verify::inclusion::{verdict, Proof};
use dat_verify::node::Node;
use dat_verify::payload::{root_digest_of, ChunkHashPayload, HashPayload, ParentHashInRoot};
use sp_core::Pair;

fn key_pair() -> sp_core::ed25519::Pair {
    sp_core::ed25519::Pair::from_seed(&[7u8; 32])
}

fn public_key() -> [u8; 32] {
    key_pair().public().0
}

fn sign(message: &[u8]) -> [u8; 64] {
    key_pair().sign(message).0
}

fn chunk() -> Vec<u8> {
    b"the chunk under challenge".to_vec()
}

fn chunk_digest() -> [u8; 32] {
    ChunkHashPayload::new(chunk()).hash()
}

// A tree whose last index is 4: the leaf at 4 is its only orphan.
fn nodes() -> Vec<Node> {
    vec![
        Node { index: 0, hash: [1; 32], size: 10 },
        Node { index: 1, hash: [2; 32], size: 30 },
        Node { index: 2, hash: [3; 32], size: 20 },
        Node { index: 4, hash: chunk_digest(), size: 25 },
    ]
}

fn root() -> [u8; 32] {
    root_digest_of(&vec![ParentHashInRoot {
        hash: chunk_digest(),
        hash_number: 4,
        total_length: 25,
    }])
}

fn good_proof() -> Proof {
    Proof { index: 4, nodes: nodes(), signature: Some(sign(&root())) }
}

#[test]
fn a_good_proof_verifies() {
    assert_eq!(good_proof().verify(4, &public_key(), &root(), chunk()), Ok(()));
}

#[test]
fn a_proof_without_signature_is_unsigned() {
    let proof = Proof { index: 4, nodes: nodes(), signature: None };
    assert_eq!(proof.verify(4, &public_key(), &root(), chunk()), Err(Error::UnsignedProof));
}

#[test]
fn a_signature_of_another_root_fails() {
    let proof = Proof { index: 4, nodes: nodes(), signature: Some(sign(&[9u8; 32])) };
    assert_eq!(proof.verify(4, &public_key(), &root(), chunk()), Err(Error::VerificationFailed));
}

#[test]
fn a_signature_under_another_key_fails() {
    let other = sp_core::ed25519::Pair::from_seed(&[8u8; 32]).public().0;
    assert_eq!(good_proof().verify(4, &other, &root(), chunk()), Err(Error::VerificationFailed));
}

#[test]
fn a_signature_that_is_no_signature_fails() {
    let proof = Proof { index: 4, nodes: nodes(), signature: Some([0xff; 64]) };
    assert_eq!(proof.verify(4, &public_key(), &root(), chunk()), Err(Error::VerificationFailed));
}

#[test]
fn a_proof_of_another_leaf_proves_the_wrong_chunk() {
    let proof = Proof { index: 2, nodes: nodes(), signature: Some(sign(&root())) };
    assert_eq!(proof.verify(4, &public_key(), &root(), chunk()), Err(Error::ProvesWrongChunk));
}

#[test]
fn a_proof_without_the_leaf_fails_on_the_chunk() {
    let mut without = nodes();
    without.pop();
    let proof = Proof { index: 4, nodes: without, signature: Some(sign(&root())) };
    assert_eq!(
        proof.verify(4, &public_key(), &root(), chunk()),
        Err(Error::ChunkHashVerificationFailed)
    );
}

#[test]
fn another_chunk_fails_on_the_chunk() {
    assert_eq!(
        good_proof().verify(4, &public_key(), &root(), b"another chunk".to_vec()),
        Err(Error::ChunkHashVerificationFailed)
    );
}

#[test]
fn nodes_out_of_order_fail_on_the_chunk() {
    let mut shuffled = nodes();
    shuffled.swap(0, 1);
    let proof = Proof { index: 4, nodes: shuffled, signature: Some(sign(&root())) };
    assert!(!proof.is_well_formed());
    assert_eq!(
        proof.verify(4, &public_key(), &root(), chunk()),
        Err(Error::ChunkHashVerificationFailed)
    );
}

#[test]
fn a_claimed_root_that_the_nodes_do_not_make_fails_on_the_root() {
    let claimed: [u8; 32] = [6; 32];
    let proof = Proof { index: 4, nodes: nodes(), signature: Some(sign(&claimed)) };
    assert_eq!(
        proof.verify(4, &public_key(), &claimed, chunk()),
        Err(Error::RootHashVerificationFailed)
    );
}

#[test]
fn the_size_of_the_orphan_is_part_of_the_root() {
    let mut resized = nodes();
    resized[3].size = 26;
    let proof = Proof { index: 4, nodes: resized, signature: Some(sign(&root())) };
    assert_eq!(
        proof.verify(4, &public_key(), &root(), chunk()),
        Err(Error::RootHashVerificationFailed)
    );
}

#[test]
fn an_odd_leaf_has_no_orphans() {
    let leaf = Node { index: 5, hash: chunk_digest(), size: 25 };
    let empty_root = root_digest_of(&Vec::new());
    let proof = Proof { index: 5, nodes: vec![leaf], signature: Some(sign(&empty_root)) };
    assert_eq!(proof.root_children(5), Vec::new());
    assert_eq!(proof.verify(5, &public_key(), &empty_root, chunk()), Ok(()));
}

#[test]
fn the_first_failing_check_decides() {
    assert_eq!(verdict(false, false, false, false, false), Err(Error::UnsignedProof));
    assert_eq!(verdict(true, false, false, false, false), Err(Error::VerificationFailed));
    assert_eq!(verdict(true, true, false, false, false), Err(Error::ProvesWrongChunk));
    assert_eq!(verdict(true, true, true, false, false), Err(Error::ChunkHashVerificationFailed));
    assert_eq!(verdict(true, true, true, true, false), Err(Error::RootHashVerificationFailed));
    assert_eq!(verdict(true, true, true, true, true), Ok(()));
    assert_eq!(verdict(false, true, true, true, true), Err(Error::UnsignedProof));
}

#[test]
fn shape_of_a_proof() {
    assert!(Proof { index: 0, nodes: Vec::new(), signature: None }.is_well_formed());
    assert!(good_proof().is_well_formed());
    let twice = vec![
        Node { index: 2, hash: [0; 32], size: 0 },
        Node { index: 2, hash: [0; 32], size: 0 },
    ];
    assert!(!Proof { index: 0, nodes: twice, signature: None }.is_well_formed());
    let falling = vec![
        Node { index: 0, hash: [0; 32], size: 0 },
        Node { index: 3, hash: [0; 32], size: 0 },
        Node { index: 1, hash: [0; 32], size: 0 },
    ];
    assert!(!Proof { index: 0, nodes: falling, signature: None }.is_well_formed());
}

#[test]
fn locate_finds_each_node_and_nothing_else() {
    let proof = good_proof();
    assert_eq!(proof.locate(0), Some(0));
    assert_eq!(proof.locate(1), Some(1));
    assert_eq!(proof.locate(2), Some(2));
    assert_eq!(proof.locate(4), Some(3));
    assert_eq!(proof.locate(3), None);
    assert_eq!(proof.locate(5), None);
    assert_eq!(proof.locate(u64::MAX), None);
    assert_eq!(Proof { index: 0, nodes: Vec::new(), signature: None }.locate(0), None);
}

#[test]
fn root_children_are_the_nodes_at_orphan_indices() {
    let proof = good_proof();
    assert_eq!(
        proof.root_children(4),
        vec![ParentHashInRoot { hash: chunk_digest(), hash_number: 4, total_length: 25 }]
    );
    assert_eq!(
        proof.root_children(2),
        vec![ParentHashInRoot { hash: [3; 32], hash_number: 2, total_length: 20 }]
    );
    assert_eq!(proof.root_children(3), Vec::new());
    assert_eq!(proof.root_children(6), Vec::new());
}

#[test]
fn holds_leaf_digest_checks_index_and_digest() {
    let proof = good_proof();
    assert!(proof.holds_leaf_digest(4, &chunk_digest()));
    assert!(proof.holds_leaf_digest(0, &[1; 32]));
    assert!(!proof.holds_leaf_digest(0, &[2; 32]));
    assert!(!proof.holds_leaf_digest(3, &chunk_digest()));
}
