//! The grinding search and the growing slot augmentations.

use eth_proof::accounts::AddressBytes;
use eth_proof::nibbles::NibblePath;
use eth_proof::retry::augment_for_missing_sibling;
use eth_proof::retry::grind;
use eth_proof::retry::retry_step;
use eth_proof::retry::GeneratorOutcome;
use eth_proof::retry::RetryError;
use eth_proof::retry::SlotAugmentations;
use ethers::utils::keccak256;

fn nibbles_of(bytes: &[u8]) -> Vec<u8> {
    let mut out = Vec::new();
    for b in bytes {
        out.push(b >> 4);
        out.push(b & 0xf);
    }
    out
}

/// For a target built from a known seed's hash, the search terminates and
/// the returned value's hash starts with exactly the target nibbles.
#[test]
fn grind_finds_short_prefix() {
    let seed = [7u8; 32];
    let hash = keccak256(seed);
    let target_nibbles = &nibbles_of(&hash)[..2];
    let mut target = NibblePath::empty();
    for n in target_nibbles {
        target.push_back(*n);
    }
    let found = grind(&target, 2_000_000).unwrap();
    assert_eq!(found.len(), 32);
    let found_hash = keccak256(&found);
    assert_eq!(&nibbles_of(&found_hash)[..2], target_nibbles);
}

/// An empty target terminates immediately on the first sample.
#[test]
fn grind_empty_target_is_immediate() {
    let target = NibblePath::empty();
    assert!(grind(&target, 1).is_ok());
}

/// An infeasible target within a tiny attempt bound is reported, not spun
/// on forever.
#[test]
fn grind_exhausts_its_bound() {
    let full = [0u8; 32];
    let target = NibblePath::from_bytes(&full);
    assert_eq!(grind(&target, 3).unwrap_err(), RetryError::GrindExhausted);
}

/// Extra slots never shrink and never repeat.
#[test]
fn augmentations_grow_without_repeats() {
    let a = AddressBytes::from_bytes(vec![0xaa; 20]);
    let b = AddressBytes::from_bytes(vec![0xbb; 20]);
    let mut aug = SlotAugmentations::new();
    assert!(aug.slots_for(&a).is_empty());

    aug.add_slot(&a, vec![1u8; 32]);
    aug.add_slot(&a, vec![2u8; 32]);
    aug.add_slot(&b, vec![3u8; 32]);
    assert_eq!(aug.slots_for(&a), vec![vec![1u8; 32], vec![2u8; 32]]);
    assert_eq!(aug.slots_for(&b), vec![vec![3u8; 32]]);

    // A slot already recorded changes nothing.
    aug.add_slot(&a, vec![1u8; 32]);
    assert_eq!(aug.slots_for(&a), vec![vec![1u8; 32], vec![2u8; 32]]);

    // A later slot is appended after the earlier ones.
    aug.add_slot(&a, vec![4u8; 32]);
    assert_eq!(
        aug.slots_for(&a),
        vec![vec![1u8; 32], vec![2u8; 32], vec![4u8; 32]]
    );
}

/// The recoverable failure grows the slot set with a value whose hashed
/// path lands on the missing sibling's line.
#[test]
fn augment_lands_on_sibling_path() {
    let a = AddressBytes::from_bytes(vec![0xcc; 20]);
    let mut aug = SlotAugmentations::new();
    let fault_slot = vec![9u8; 32];
    let nibble = 0x4u8;
    let depth = 62u8;
    let found =
        augment_for_missing_sibling(&mut aug, nibble, &a, &fault_slot, depth, 4_000_000).unwrap();

    // The ground value hashes onto: first 64-depth nibbles of the fault
    // slot's hash, then the selector nibble.
    let fault_hash = keccak256(&fault_slot);
    let mut want = nibbles_of(&fault_hash)[..(64 - depth as usize)].to_vec();
    want.push(nibble);
    let found_hash = keccak256(&found);
    assert_eq!(&nibbles_of(&found_hash)[..want.len()], &want[..]);
    assert_eq!(aug.slots_for(&a), vec![found]);
}

/// The decision step: success stops, the recoverable failure retries with
/// a grown slot set, anything else is fatal.
#[test]
fn retry_step_decides() {
    let mut aug = SlotAugmentations::new();
    let success = GeneratorOutcome::Success { computed_root: vec![0u8; 32] };
    assert_eq!(retry_step(&mut aug, &success, 10).unwrap(), false);

    let fatal = GeneratorOutcome::OtherFailure;
    assert_eq!(retry_step(&mut aug, &fatal, 10).unwrap_err(), RetryError::GeneratorFailed);

    let a = AddressBytes::from_bytes(vec![0xdd; 20]);
    let recoverable = GeneratorOutcome::MissingSibling {
        nibble: 0x7,
        address: a,
        slot: vec![5u8; 32],
        depth: 63,
    };
    let again = retry_step(&mut aug, &recoverable, 4_000_000).unwrap();
    assert!(again);
    let a2 = AddressBytes::from_bytes(vec![0xdd; 20]);
    assert_eq!(aug.slots_for(&a2).len(), 1);
}
