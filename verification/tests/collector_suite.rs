//! Merging per-transaction trace fragments into the per-block account map.

use eth_proof::accounts::collect_touched;
use eth_proof::accounts::AccountState;
use eth_proof::accounts::AddressBytes;
use eth_proof::accounts::SlotEntry;
use eth_proof::accounts::TraceAccount;
use eth_proof::nibbles::NibblePath;

fn addr(last: u8) -> AddressBytes {
    let mut b = vec![0u8; 20];
    b[19] = last;
    AddressBytes::from_bytes(b)
}

fn slot(key_last: u8, value_last: u8) -> SlotEntry {
    let mut k = vec![0u8; 32];
    k[31] = key_last;
    let mut v = vec![0u8; 32];
    v[31] = value_last;
    SlotEntry { key: k, value: v }
}

#[test]
fn first_fragment_enters_as_reported() {
    let frags = vec![TraceAccount {
        address: addr(1),
        account: AccountState { code: Some(b"0x00".to_vec()), storage: None },
    }];
    let map = collect_touched(&frags);
    assert_eq!(map.len(), 1);
    assert_eq!(map.address_at(0).as_bytes()[19], 1);
    let acc = map.account_at(0);
    assert_eq!(acc.code, Some(b"0x00".to_vec()));
    assert!(acc.storage.is_none());
}

#[test]
fn storage_unions_and_later_values_override() {
    let frags = vec![
        TraceAccount {
            address: addr(1),
            account: AccountState { code: None, storage: Some(vec![slot(1, 10), slot(2, 20)]) },
        },
        TraceAccount {
            address: addr(1),
            account: AccountState { code: None, storage: Some(vec![slot(2, 99), slot(3, 30)]) },
        },
    ];
    let map = collect_touched(&frags);
    assert_eq!(map.len(), 1);
    let acc = map.account_at(0);
    let stored = acc.storage.as_ref().unwrap();
    // Union of the three keys; the later fragment's value wins at key 2.
    let mut seen = std::collections::BTreeMap::new();
    for e in stored.iter() {
        seen.insert(e.key[31], e.value[31]);
    }
    assert_eq!(seen.get(&1), Some(&10));
    assert_eq!(seen.get(&2), Some(&99));
    assert_eq!(seen.get(&3), Some(&30));
}

#[test]
fn code_first_reported_is_kept() {
    let frags = vec![
        TraceAccount {
            address: addr(1),
            account: AccountState { code: Some(b"0xaa".to_vec()), storage: None },
        },
        TraceAccount {
            address: addr(1),
            account: AccountState { code: Some(b"0xbb".to_vec()), storage: None },
        },
    ];
    let map = collect_touched(&frags);
    assert_eq!(map.account_at(0).code, Some(b"0xaa".to_vec()));
}

#[test]
fn accounts_come_out_ordered_by_address() {
    let frags = vec![
        TraceAccount { address: addr(9), account: AccountState { code: None, storage: None } },
        TraceAccount { address: addr(3), account: AccountState { code: None, storage: None } },
        TraceAccount { address: addr(6), account: AccountState { code: None, storage: None } },
    ];
    let map = collect_touched(&frags);
    assert_eq!(map.len(), 3);
    assert_eq!(map.address_at(0).as_bytes()[19], 3);
    assert_eq!(map.address_at(1).as_bytes()[19], 6);
    assert_eq!(map.address_at(2).as_bytes()[19], 9);
}

#[test]
fn storage_absent_only_when_never_reported() {
    let frags = vec![
        TraceAccount {
            address: addr(1),
            account: AccountState { code: None, storage: None },
        },
        TraceAccount {
            address: addr(1),
            account: AccountState { code: None, storage: Some(vec![slot(1, 1)]) },
        },
        TraceAccount {
            address: addr(2),
            account: AccountState { code: None, storage: None },
        },
    ];
    let map = collect_touched(&frags);
    assert_eq!(map.len(), 2);
    assert!(map.account_at(0).storage.is_some());
    assert!(map.account_at(1).storage.is_none());
}

#[test]
fn nibble_path_expansion() {
    let key = [0xabu8, 0xcd];
    let p = NibblePath::from_bytes(&key);
    assert_eq!(p.len(), 4);
    assert_eq!(p.nibble_at(0), 0xa);
    assert_eq!(p.nibble_at(1), 0xb);
    assert_eq!(p.nibble_at(2), 0xc);
    assert_eq!(p.nibble_at(3), 0xd);
    let q = p.prefix(2);
    assert_eq!(q.to_vec(), vec![0xa, 0xb]);
    assert!(q.is_prefix_of(&p));
    assert!(!p.is_prefix_of(&q));
    assert!(p.eq_path(&p.duplicate()));
}
