use dat_verify::encoding::{append_bytes, push_u64_be, push_u64_le, read_u64_le};
use dat_verify::payload::{
    lay_out_root, root_digest_of, ChunkHashPayload, HashPayload, ParentHashInRoot,
    ParentHashPayload, RootHashPayload,
};
use dat_verify::primitives::{bytes_eq, same_32};

fn ascending() -> [u8; 32] {
    let mut bytes = [0u8; 32];
    let mut at = 0;
    while at < 32 {
        bytes[at] = at as u8;
        at += 1;
    }
    bytes
}

fn two_children() -> Vec<ParentHashInRoot> {
    vec![
        ParentHashInRoot { hash: ascending(), hash_number: 4, total_length: 30 },
        ParentHashInRoot {
            hash: [0xff; 32],
            hash_number: 0x1122_3344_5566_7788,
            total_length: 1 << 63,
        },
    ]
}

#[test]
fn integers_are_laid_out_most_significant_byte_first() {
    let mut out: Vec<u8> = vec![7];
    push_u64_be(&mut out, 0x0102_0304_0506_0708);
    assert_eq!(out, vec![7, 1, 2, 3, 4, 5, 6, 7, 8]);
    let mut zero: Vec<u8> = Vec::new();
    push_u64_be(&mut zero, 0);
    assert_eq!(zero, vec![0; 8]);
    let mut max: Vec<u8> = Vec::new();
    push_u64_be(&mut max, u64::MAX);
    assert_eq!(max, vec![0xff; 8]);
    let mut small: Vec<u8> = Vec::new();
    push_u64_be(&mut small, 300);
    assert_eq!(small, 300u64.to_be_bytes().to_vec());
}

#[test]
fn little_endian_bytes_read_back() {
    let mut out: Vec<u8> = Vec::new();
    push_u64_le(&mut out, 0x0102_0304_0506_0708);
    assert_eq!(out, vec![8, 7, 6, 5, 4, 3, 2, 1]);
    assert_eq!(read_u64_le(&out), 0x0102_0304_0506_0708);
    assert_eq!(read_u64_le(&[0xff; 8]), u64::MAX);
    assert_eq!(read_u64_le(&[1, 0, 0, 0, 0, 0, 0, 0, 9, 9]), 1);
    assert_eq!(read_u64_le(&[0, 0, 0, 0, 0, 0, 0, 0x80]), 1 << 63);
}

#[test]
fn bytes_are_appended_in_order() {
    let mut out: Vec<u8> = vec![1, 2];
    append_bytes(&mut out, &[3, 4, 5]);
    append_bytes(&mut out, &[]);
    assert_eq!(out, vec![1, 2, 3, 4, 5]);
}

#[test]
fn byte_strings_compare_by_content() {
    assert!(bytes_eq(&[], &[]));
    assert!(bytes_eq(&[1, 2, 3], &[1, 2, 3]));
    assert!(!bytes_eq(&[1, 2, 3], &[1, 2]));
    assert!(!bytes_eq(&[1, 2, 3], &[1, 2, 4]));
    assert!(same_32(&[5; 32], &[5; 32]));
    let mut other = [5u8; 32];
    other[31] = 6;
    assert!(!same_32(&[5; 32], &other));
}

#[test]
fn chunk_payload_is_kind_length_content() {
    let payload = ChunkHashPayload::new(b"hello world".to_vec());
    assert_eq!(payload.hash_type, 0);
    assert_eq!(payload.chunk_length, 11);
    assert_eq!(
        payload.canonical(),
        vec![0, 0, 0, 0, 0, 0, 0, 0, 11, 104, 101, 108, 108, 111, 32, 119, 111, 114, 108, 100]
    );
}

#[test]
fn chunk_digest_is_blake2b_256_of_the_canonical_bytes() {
    let payload = ChunkHashPayload::new(b"hello world".to_vec());
    let expected: [u8; 32] = [
        204, 250, 66, 89, 238, 124, 65, 228, 17, 229, 119, 9, 115, 164, 156, 92, 239, 251, 82,
        114, 214, 163, 127, 44, 111, 45, 172, 33, 144, 247, 226, 183,
    ];
    assert_eq!(payload.hash(), expected);
    let digest = <sp_core::Blake2Hasher as sp_core::Hasher>::hash(&payload.canonical());
    assert_eq!(payload.hash(), digest.0);
}

#[test]
fn chunk_digest_depends_on_length_and_content() {
    let one = ChunkHashPayload::new(vec![1, 2, 3]);
    let same = ChunkHashPayload::new(vec![1, 2, 3]);
    let other_content = ChunkHashPayload::new(vec![1, 2, 4]);
    let other_length = ChunkHashPayload::new(vec![1, 2, 3, 0]);
    let stated_length =
        ChunkHashPayload { hash_type: 0, chunk_length: 4, chunk_content: vec![1, 2, 3] };
    assert_eq!(one.hash(), same.hash());
    assert_ne!(one.hash(), other_content.hash());
    assert_ne!(one.hash(), other_length.hash());
    assert_ne!(one.hash(), stated_length.hash());
    assert_ne!(one.canonical(), stated_length.canonical());
}

#[test]
fn empty_chunk_has_nine_canonical_bytes() {
    let payload = ChunkHashPayload::new(Vec::new());
    assert_eq!(payload.canonical(), vec![0; 9]);
}

#[test]
fn parent_payload_is_kind_and_total_length() {
    let payload = ParentHashPayload::new(0x0102_0304_0506_0708, [[1; 32], [2; 32]]);
    assert_eq!(payload.hash_type, 1);
    assert_eq!(payload.canonical(), vec![1, 1, 2, 3, 4, 5, 6, 7, 8]);
    let expected: [u8; 32] = [
        214, 73, 51, 32, 122, 217, 128, 78, 81, 12, 86, 159, 109, 41, 185, 84, 192, 32, 250, 145,
        127, 190, 115, 255, 215, 244, 222, 187, 57, 178, 97, 217,
    ];
    assert_eq!(payload.hash(), expected);
}

#[test]
fn parent_digest_leaves_the_children_out() {
    let one = ParentHashPayload::new(77, [[1; 32], [2; 32]]);
    let other = ParentHashPayload::new(77, [[3; 32], [4; 32]]);
    let longer = ParentHashPayload::new(78, [[1; 32], [2; 32]]);
    assert_eq!(one.hash(), other.hash());
    assert_ne!(one.hash(), longer.hash());
}

#[test]
fn root_payload_is_kind_and_48_bytes_per_entry() {
    let payload = RootHashPayload::new(two_children());
    assert_eq!(payload.hash_type, 2);
    let bytes = payload.canonical();
    assert_eq!(bytes.len(), 97);
    assert_eq!(bytes[0], 2);
    assert_eq!(bytes[1..33].to_vec(), ascending().to_vec());
    assert_eq!(bytes[33..41].to_vec(), vec![0, 0, 0, 0, 0, 0, 0, 4]);
    assert_eq!(bytes[41..49].to_vec(), vec![0, 0, 0, 0, 0, 0, 0, 30]);
    assert_eq!(bytes[49..81].to_vec(), vec![0xff; 32]);
    assert_eq!(bytes[81..89].to_vec(), vec![0x11, 0x22, 0x33, 0x44, 0x55, 0x66, 0x77, 0x88]);
    assert_eq!(bytes[89..97].to_vec(), vec![0x80, 0, 0, 0, 0, 0, 0, 0]);
    assert_eq!(lay_out_root(2, &two_children()), bytes);
}

#[test]
fn root_digest_is_blake2b_256_of_the_canonical_bytes() {
    let payload = RootHashPayload::new(two_children());
    let expected: [u8; 32] = [
        158, 186, 76, 241, 244, 106, 178, 212, 19, 2, 255, 170, 76, 165, 51, 100, 206, 145, 200,
        145, 248, 248, 188, 178, 195, 76, 51, 113, 163, 227, 5, 78,
    ];
    assert_eq!(payload.hash(), expected);
    assert_eq!(root_digest_of(&two_children()), expected);
}

#[test]
fn root_without_entries_is_the_kind_byte_alone() {
    let payload = RootHashPayload::new(Vec::new());
    assert_eq!(payload.canonical(), vec![2]);
    let expected: [u8; 32] = [
        187, 48, 164, 44, 30, 98, 240, 175, 218, 95, 10, 78, 138, 86, 47, 122, 19, 162, 76, 234,
        0, 238, 129, 145, 123, 134, 184, 158, 128, 19, 20, 170,
    ];
    assert_eq!(payload.hash(), expected);
}

#[test]
fn root_digest_follows_the_order_of_the_entries() {
    let mut swapped = two_children();
    swapped.reverse();
    assert_ne!(root_digest_of(&two_children()), root_digest_of(&swapped));
}

#[test]
fn kind_byte_is_part_of_the_digest() {
    let as_root = RootHashPayload { hash_type: 2, children: two_children() };
    let as_other = RootHashPayload { hash_type: 3, children: two_children() };
    assert_ne!(as_root.hash(), as_other.hash());
    assert_eq!(as_other.canonical()[0], 3);
}
