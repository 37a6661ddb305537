//! Witness assembly end to end: a withdrawal-only block, a storage-touching
//! transaction, and the consistency checks that must refuse lying inputs.

use eth_proof::accounts::AddressBytes;
use eth_proof::assemble::account_is_empty;
use eth_proof::assemble::assemble_block;
use eth_proof::assemble::build_storage_skeleton;
use eth_proof::assemble::gwei_to_wei;
use eth_proof::assemble::skeleton_root_vec;
use eth_proof::assemble::AccountInput;
use eth_proof::assemble::AssemblyError;
use eth_proof::assemble::AssemblyInput;
use eth_proof::assemble::BlockMetadata;
use eth_proof::assemble::SlotProofInput;
use eth_proof::assemble::WithdrawalInput;
use eth_proof::nibbles::NibblePath;
use eth_proof::rlp_codec::rlp_encode_word;
use eth_trie_utils::partial_trie::Nibbles;
use eth_trie_utils::partial_trie::PartialTrie;
use ethers::utils::keccak256;
use ethers::utils::rlp::RlpStream;

fn nibbles_of(bytes: &[u8]) -> Vec<u8> {
    let mut out = Vec::new();
    for b in bytes {
        out.push(b >> 4);
        out.push(b & 0xf);
    }
    out
}

fn hp_leaf(nibbles: &[u8]) -> Vec<u8> {
    let mut out = Vec::new();
    let rest: &[u8];
    if nibbles.len() % 2 == 1 {
        out.push(0x30 | nibbles[0]);
        rest = &nibbles[1..];
    } else {
        out.push(0x20);
        rest = nibbles;
    }
    let mut i = 0;
    while i < rest.len() {
        out.push((rest[i] << 4) | rest[i + 1]);
        i += 2;
    }
    out
}

fn single_leaf_trie(hashed_key: &[u8], value: &[u8]) -> (Vec<u8>, Vec<u8>) {
    // Returns (leaf node bytes, root).
    let mut s = RlpStream::new_list(2);
    s.append(&hp_leaf(&nibbles_of(hashed_key)));
    s.append(&value.to_vec());
    let leaf = s.out().to_vec();
    let root = keccak256(&leaf).to_vec();
    (leaf, root)
}

fn metadata() -> BlockMetadata {
    BlockMetadata {
        beneficiary: vec![0xbb; 20],
        timestamp: 1_700_000_000,
        number: 17_000_000,
        randomness: vec![0x0a; 32],
        gas_limit: 30_000_000,
        chain_id: 1,
        base_fee: 7,
    }
}

/// One withdrawal to address A and zero transactions: exactly one proof,
/// a state trie whose root matches the predecessor's state root, and a
/// bundle with an empty transaction list.
#[test]
fn withdrawal_only_block() {
    let addr = vec![0xaa; 20];
    let hashed = keccak256(&addr).to_vec();
    let account_rlp = b"account body".to_vec();
    let (leaf, root) = single_leaf_trie(&hashed, &account_rlp);

    let input = AssemblyInput {
        txn_rlps: vec![],
        metadata: metadata(),
        withdrawals: vec![WithdrawalInput {
            address: AddressBytes::from_bytes(addr.clone()),
            amount_gwei: 5,
            proof: vec![leaf],
            account_empty: false,
        }],
        accounts: vec![],
        prev_state_root: root.clone(),
        final_state_root: vec![0x33; 32],
    };
    let bundle = assemble_block(input).unwrap();
    assert!(bundle.txn_rlps.is_empty());
    assert_eq!(bundle.state_root, root);
    assert_eq!(bundle.withdrawals.len(), 1);
    assert_eq!(bundle.withdrawals[0].amount_wei, 5_000_000_000u128);
    assert_eq!(bundle.expected_final_root, vec![0x33; 32]);
    assert!(bundle.storage_tries.is_empty());

    // The realized state trie agrees with the reference trie.
    let mut reference = PartialTrie::Empty;
    reference.insert(Nibbles::from_bytes_be(&hashed).unwrap(), account_rlp);
    assert_eq!(reference.calc_hash().0.to_vec(), root);
}

fn storage_account_fixture() -> (Vec<u8>, Vec<u8>, Vec<u8>, Vec<u8>, Vec<u8>, Vec<u8>) {
    // Address B with storage slot 0x01 holding 0x2a.
    let addr = vec![0xbe; 20];
    let hashed_addr = keccak256(&addr).to_vec();
    let account_rlp = b"account of B".to_vec();
    let (account_leaf, state_root) = single_leaf_trie(&hashed_addr, &account_rlp);

    let mut slot_key = vec![0u8; 32];
    slot_key[31] = 0x01;
    let hashed_slot = keccak256(&slot_key).to_vec();
    // The trie leaf holds the RLP encoding of the value 0x2a.
    let (storage_leaf, storage_root) = single_leaf_trie(&hashed_slot, &[0x2a]);
    (addr, account_leaf, state_root, slot_key, storage_leaf, storage_root)
}

/// A transaction touching B's slot 0x01 with reported value 0x2a: the built
/// storage trie decodes to 0x2a at the hashed slot path and its root equals
/// the claimed storage hash.
#[test]
fn storage_slot_round_trip() {
    let (addr, account_leaf, state_root, slot_key, storage_leaf, storage_root) =
        storage_account_fixture();
    let mut value = vec![0u8; 32];
    value[31] = 0x2a;

    let input = AssemblyInput {
        txn_rlps: vec![b"txn one".to_vec()],
        metadata: metadata(),
        withdrawals: vec![],
        accounts: vec![AccountInput {
            address: AddressBytes::from_bytes(addr.clone()),
            code_hex: None,
            account_proof: vec![account_leaf],
            account_empty: false,
            has_storage: true,
            storage_hash: storage_root.clone(),
            storage_proofs: vec![SlotProofInput {
                key: slot_key.clone(),
                value: value.clone(),
                proof: vec![storage_leaf],
            }],
        }],
        prev_state_root: state_root.clone(),
        final_state_root: vec![0x44; 32],
    };
    let bundle = assemble_block(input).unwrap();
    assert_eq!(bundle.state_root, state_root);
    assert_eq!(bundle.storage_tries.len(), 1);
    let entry = &bundle.storage_tries[0];
    assert_eq!(entry.hashed_address, keccak256(&addr).to_vec());

    // Queried at the hashed path of slot 0x01, the trie decodes to 0x2a.
    let hashed_slot = keccak256(&slot_key);
    let path = NibblePath::from_bytes(&hashed_slot);
    assert_eq!(entry.skeleton.lookup_value(&path), Some(vec![0x2a]));
    // The same query against the realized outside trie agrees.
    let got = entry.trie.get(Nibbles::from_bytes_be(&hashed_slot).unwrap());
    assert_eq!(got, Some(&[0x2au8][..]));
}

/// A claimed storage hash that does not match the proof's own content is a
/// fatal integrity error, not a silent pass.
#[test]
fn wrong_storage_hash_is_fatal() {
    let (addr, account_leaf, state_root, slot_key, storage_leaf, _) = storage_account_fixture();
    let mut value = vec![0u8; 32];
    value[31] = 0x2a;

    let input = AssemblyInput {
        txn_rlps: vec![],
        metadata: metadata(),
        withdrawals: vec![],
        accounts: vec![AccountInput {
            address: AddressBytes::from_bytes(addr),
            code_hex: None,
            account_proof: vec![account_leaf],
            account_empty: false,
            has_storage: true,
            storage_hash: vec![0x99; 32],
            storage_proofs: vec![SlotProofInput {
                key: slot_key,
                value,
                proof: vec![storage_leaf],
            }],
        }],
        prev_state_root: state_root,
        final_state_root: vec![0x44; 32],
    };
    assert!(matches!(assemble_block(input), Err(AssemblyError::StorageRootMismatch)));
}

/// A reported slot value that the rebuilt trie does not hold is fatal.
#[test]
fn wrong_slot_value_is_fatal() {
    let (_, _, _, slot_key, storage_leaf, _) = storage_account_fixture();
    let mut wrong = vec![0u8; 32];
    wrong[31] = 0x2b;
    let r = build_storage_skeleton(&vec![SlotProofInput {
        key: slot_key,
        value: wrong,
        proof: vec![storage_leaf],
    }]);
    assert!(matches!(r, Err(AssemblyError::StorageValueMismatch)));
}

/// A state root that does not match the previous block's is fatal.
#[test]
fn wrong_state_root_is_fatal() {
    let addr = vec![0xaa; 20];
    let hashed = keccak256(&addr).to_vec();
    let (leaf, _) = single_leaf_trie(&hashed, b"account body");
    let input = AssemblyInput {
        txn_rlps: vec![],
        metadata: metadata(),
        withdrawals: vec![WithdrawalInput {
            address: AddressBytes::from_bytes(addr),
            amount_gwei: 1,
            proof: vec![leaf],
            account_empty: false,
        }],
        accounts: vec![],
        prev_state_root: vec![0x77; 32],
        final_state_root: vec![0x33; 32],
    };
    assert!(matches!(assemble_block(input), Err(AssemblyError::StateRootMismatch)));
}

/// Reported code lands in the code map under its digest, beside the seeded
/// empty-code entry.
#[test]
fn code_is_collected_by_digest() {
    let (addr, account_leaf, state_root, _, _, _) = storage_account_fixture();
    let code = vec![0x60, 0x00, 0x60, 0x00];
    let code_hex = b"0x60006000".to_vec();

    let input = AssemblyInput {
        txn_rlps: vec![],
        metadata: metadata(),
        withdrawals: vec![],
        accounts: vec![AccountInput {
            address: AddressBytes::from_bytes(addr),
            code_hex: Some(code_hex),
            account_proof: vec![account_leaf],
            account_empty: false,
            has_storage: false,
            storage_hash: vec![0; 32],
            storage_proofs: vec![],
        }],
        prev_state_root: state_root,
        final_state_root: vec![0x44; 32],
    };
    let bundle = assemble_block(input).unwrap();
    let digest = keccak256(&code).to_vec();
    assert_eq!(bundle.codes.lookup(&digest), Some(code));
    // The seeded entry: the well-known digest of empty code.
    let empty_digest = keccak256(&[] as &[u8]).to_vec();
    assert_eq!(bundle.codes.lookup(&empty_digest), Some(vec![]));
    assert_eq!(
        empty_digest,
        ethers::utils::hex::decode("c5d2460186f7233c927e7db2dcc703c0e500b653ca82273b7bfad8045d85a470")
            .unwrap()
    );
}

/// Code that is not hex is a fatal error.
#[test]
fn bad_code_hex_is_fatal() {
    let (addr, account_leaf, state_root, _, _, _) = storage_account_fixture();
    let input = AssemblyInput {
        txn_rlps: vec![],
        metadata: metadata(),
        withdrawals: vec![],
        accounts: vec![AccountInput {
            address: AddressBytes::from_bytes(addr),
            code_hex: Some(b"0xzz".to_vec()),
            account_proof: vec![account_leaf],
            account_empty: false,
            has_storage: false,
            storage_hash: vec![0; 32],
            storage_proofs: vec![],
        }],
        prev_state_root: state_root,
        final_state_root: vec![0x44; 32],
    };
    assert!(matches!(assemble_block(input), Err(AssemblyError::BadCodeHex)));
}

#[test]
fn word_encoding_matches_reference_rlp() {
    let mut v = vec![0u8; 32];
    v[31] = 42;
    let ours = rlp_encode_word(&v);
    let reference = ethers::utils::rlp::encode(&ethers::types::U256::from(42u64)).to_vec();
    assert_eq!(ours, reference);

    let mut big = vec![0u8; 32];
    big[0] = 0x01;
    big[31] = 0xff;
    let ours_big = rlp_encode_word(&big);
    let reference_big =
        ethers::utils::rlp::encode(&ethers::types::U256::from_big_endian(&big)).to_vec();
    assert_eq!(ours_big, reference_big);

    let zero = vec![0u8; 32];
    assert_eq!(rlp_encode_word(&zero), vec![0x80]);
}

#[test]
fn gwei_conversion_is_exact() {
    assert_eq!(gwei_to_wei(0), 0);
    assert_eq!(gwei_to_wei(5), 5_000_000_000);
    assert_eq!(gwei_to_wei(u64::MAX), (u64::MAX as u128) * 1_000_000_000);
}

#[test]
fn storage_skeleton_root_matches_reference() {
    let (_, _, _, slot_key, storage_leaf, storage_root) = storage_account_fixture();
    let mut value = vec![0u8; 32];
    value[31] = 0x2a;
    let skel = build_storage_skeleton(&vec![SlotProofInput {
        key: slot_key,
        value,
        proof: vec![storage_leaf],
    }])
    .unwrap();
    assert_eq!(skeleton_root_vec(&skel), storage_root);
}

/// A refused proof surfaces as a replay error, with the skeleton state of
/// the attempt discarded by the caller.
#[test]
fn malformed_withdrawal_proof_is_fatal() {
    let addr = vec![0xaa; 20];
    let input = AssemblyInput {
        txn_rlps: vec![],
        metadata: metadata(),
        withdrawals: vec![WithdrawalInput {
            address: AddressBytes::from_bytes(addr),
            amount_gwei: 1,
            proof: vec![vec![0x01, 0x02]],
            account_empty: false,
        }],
        accounts: vec![],
        prev_state_root: vec![0x11; 32],
        final_state_root: vec![0x33; 32],
    };
    assert!(matches!(
        assemble_block(input),
        Err(AssemblyError::Replay(eth_proof::replay::ProofError::MalformedNode))
    ));
}

/// The emptiness test behind a fetched proof: zero balance, zero nonce and
/// the empty-code digest.
#[test]
fn account_emptiness_check() {
    let zero32 = vec![0u8; 32];
    let empty_code_digest = keccak256(&[] as &[u8]).to_vec();
    assert!(account_is_empty(&zero32, &zero32, &empty_code_digest));
    let mut balance = vec![0u8; 32];
    balance[31] = 1;
    assert!(!account_is_empty(&balance, &zero32, &empty_code_digest));
    assert!(!account_is_empty(&zero32, &zero32, &vec![0u8; 32]));
}
