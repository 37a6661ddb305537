//! Proof replay against real Merkle-Patricia tries: the reference tries are
//! built with eth_trie_utils, the proofs are encoded by hand with RLP, and
//! the replayed skeleton's root must land on the reference root.

use eth_proof::assemble::skeleton_root_vec;
use eth_proof::nibbles::NibblePath;
use eth_proof::replay::insert_proof;
use eth_proof::skeleton::TrieSkeleton;
use eth_trie_utils::partial_trie::Nibbles;
use eth_trie_utils::partial_trie::PartialTrie;
use ethers::utils::keccak256;
use ethers::utils::rlp::RlpStream;

fn nibbles_of(bytes: &[u8]) -> Vec<u8> {
    let mut out = Vec::new();
    for b in bytes {
        out.push(b >> 4);
        out.push(b & 0xf);
    }
    out
}

fn hp_encode(nibbles: &[u8], is_leaf: bool) -> Vec<u8> {
    let flag: u8 = if is_leaf { 2 } else { 0 };
    let mut out = Vec::new();
    let rest: &[u8];
    if nibbles.len() % 2 == 1 {
        out.push(((flag + 1) << 4) | nibbles[0]);
        rest = &nibbles[1..];
    } else {
        out.push(flag << 4);
        rest = nibbles;
    }
    let mut i = 0;
    while i < rest.len() {
        out.push((rest[i] << 4) | rest[i + 1]);
        i += 2;
    }
    out
}

fn leaf_node(path_nibbles: &[u8], value: &[u8]) -> Vec<u8> {
    let mut s = RlpStream::new_list(2);
    s.append(&hp_encode(path_nibbles, true));
    s.append(&value.to_vec());
    s.out().to_vec()
}

fn branch_node(children: &[Option<Vec<u8>>; 16]) -> Vec<u8> {
    let mut s = RlpStream::new_list(17);
    for c in children.iter() {
        match c {
            Some(h) => {
                s.append(h);
            }
            None => {
                s.append(&Vec::<u8>::new());
            }
        }
    }
    s.append(&Vec::<u8>::new());
    s.out().to_vec()
}

/// Two leaves under one root branch, with hand-encoded proofs whose hashes
/// the reference trie must agree with.
fn two_leaf_fixture() -> (Vec<u8>, Vec<u8>, Vec<u8>, Vec<u8>, Vec<Vec<u8>>, Vec<Vec<u8>>, Vec<u8>) {
    let k1 = vec![0x11u8; 32];
    let k2 = vec![0x22u8; 32];
    let v1 = b"first value".to_vec();
    let v2 = b"second value".to_vec();
    let leaf1 = leaf_node(&nibbles_of(&k1)[1..], &v1);
    let leaf2 = leaf_node(&nibbles_of(&k2)[1..], &v2);
    let mut children: [Option<Vec<u8>>; 16] = Default::default();
    children[1] = Some(keccak256(&leaf1).to_vec());
    children[2] = Some(keccak256(&leaf2).to_vec());
    let branch = branch_node(&children);

    // The reference trie must agree with the hand encoding.
    let mut reference = PartialTrie::Empty;
    reference.insert(Nibbles::from_bytes_be(&k1).unwrap(), v1.clone());
    reference.insert(Nibbles::from_bytes_be(&k2).unwrap(), v2.clone());
    let root = reference.calc_hash().0.to_vec();
    assert_eq!(root, keccak256(&branch).to_vec());

    let proof1 = vec![branch.clone(), leaf1];
    let proof2 = vec![branch, leaf2];
    (k1, k2, v1, v2, proof1, proof2, root)
}

#[test]
fn round_trip_two_proofs() {
    let (k1, k2, _, _, proof1, proof2, root) = two_leaf_fixture();
    let mut skel = TrieSkeleton::new();
    assert!(insert_proof(&mut skel, &k1, &proof1, true).is_ok());
    assert!(insert_proof(&mut skel, &k2, &proof2, true).is_ok());
    assert_eq!(skeleton_root_vec(&skel), root);
}

#[test]
fn round_trip_subset_of_keys() {
    // Replaying only one key's proof still commits to the same root: the
    // sibling survives as a digest placeholder.
    let (k1, _, _, _, proof1, _, root) = two_leaf_fixture();
    let mut skel = TrieSkeleton::new();
    assert!(insert_proof(&mut skel, &k1, &proof1, true).is_ok());
    assert_eq!(skeleton_root_vec(&skel), root);
}

#[test]
fn merge_is_order_independent() {
    let (k1, k2, v1, v2, proof1, proof2, root) = two_leaf_fixture();

    let mut ab = TrieSkeleton::new();
    assert!(insert_proof(&mut ab, &k1, &proof1, true).is_ok());
    assert!(insert_proof(&mut ab, &k2, &proof2, true).is_ok());

    let mut ba = TrieSkeleton::new();
    assert!(insert_proof(&mut ba, &k2, &proof2, true).is_ok());
    assert!(insert_proof(&mut ba, &k1, &proof1, true).is_ok());

    assert_eq!(skeleton_root_vec(&ab), skeleton_root_vec(&ba));
    assert_eq!(skeleton_root_vec(&ab), root);

    // Neither order leaves a placeholder where the other proof expanded:
    // both orders expose both leaf values.
    let p1 = NibblePath::from_bytes(&k1);
    let p2 = NibblePath::from_bytes(&k2);
    assert_eq!(ab.lookup_value(&p1), Some(v1.clone()));
    assert_eq!(ab.lookup_value(&p2), Some(v2.clone()));
    assert_eq!(ba.lookup_value(&p1), Some(v1));
    assert_eq!(ba.lookup_value(&p2), Some(v2));
}

#[test]
fn absence_proof_inserts_no_leaf() {
    let (k1, _, _, _, proof1, _, _) = two_leaf_fixture();
    let mut skel = TrieSkeleton::new();
    assert!(insert_proof(&mut skel, &k1, &proof1, false).is_ok());
    let p1 = NibblePath::from_bytes(&k1);
    assert_eq!(skel.lookup_value(&p1), None);

    // The same proof with the existence flag set does write the leaf.
    let mut skel2 = TrieSkeleton::new();
    assert!(insert_proof(&mut skel2, &k1, &proof1, true).is_ok());
    assert!(skel2.lookup_value(&p1).is_some());
}

#[test]
fn mismatched_path_is_refused() {
    let (k1, _, _, _, _, proof2, _) = two_leaf_fixture();
    // k1's nibbles do not follow proof2's leaf path.
    let mut skel = TrieSkeleton::new();
    let r = insert_proof(&mut skel, &k1, &proof2, true);
    assert!(matches!(r, Err(eth_proof::replay::ProofError::PathMismatch)));
}

#[test]
fn malformed_node_is_refused() {
    let k1 = vec![0x11u8; 32];
    let garbage = vec![vec![0x01u8, 0x02, 0x03]];
    let mut skel = TrieSkeleton::new();
    let r = insert_proof(&mut skel, &k1, &garbage, true);
    assert!(matches!(r, Err(eth_proof::replay::ProofError::MalformedNode)));
}

#[test]
fn deep_trie_round_trip() {
    // Keys sharing a 1-nibble prefix: root branch, then a deeper branch.
    let k1 = vec![0x51u8; 32];
    let mut k2 = vec![0x51u8; 32];
    k2[0] = 0x5e;
    let v1 = b"deep one".to_vec();
    let v2 = b"deep two".to_vec();

    let mut reference = PartialTrie::Empty;
    reference.insert(Nibbles::from_bytes_be(&k1).unwrap(), v1.clone());
    reference.insert(Nibbles::from_bytes_be(&k2).unwrap(), v2.clone());
    let root = reference.calc_hash().0.to_vec();

    // Hand-encode the canonical shape: an extension over the shared nibble,
    // then a branch, then the leaves.
    let leaf1 = leaf_node(&nibbles_of(&k1)[2..], &v1);
    let leaf2 = leaf_node(&nibbles_of(&k2)[2..], &v2);
    let mut inner_children: [Option<Vec<u8>>; 16] = Default::default();
    inner_children[1] = Some(keccak256(&leaf1).to_vec());
    inner_children[0xe] = Some(keccak256(&leaf2).to_vec());
    let inner = branch_node(&inner_children);
    let mut ext_stream = RlpStream::new_list(2);
    ext_stream.append(&hp_encode(&[5u8], false));
    ext_stream.append(&keccak256(&inner).to_vec());
    let ext = ext_stream.out().to_vec();
    assert_eq!(root, keccak256(&ext).to_vec());

    let proof1 = vec![ext.clone(), inner.clone(), leaf1];
    let proof2 = vec![ext, inner, leaf2];

    let mut skel = TrieSkeleton::new();
    assert!(insert_proof(&mut skel, &k1, &proof1, true).is_ok());
    assert_eq!(skeleton_root_vec(&skel), root);
    assert!(insert_proof(&mut skel, &k2, &proof2, true).is_ok());
    assert_eq!(skeleton_root_vec(&skel), root);
}
