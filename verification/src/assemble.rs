//! Witness assembly for one block: replaying the fetched withdrawal,
//! account and storage proofs into tries, running the hard consistency
//! checks, and packaging the result for the proof generator. Every fetch
//! happens outside; this module receives plain values and proofs, and its
//! contract pins down exactly which skeleton each replay yields and which
//! error each divergence raises.

use vstd::prelude::*;

use crate::accounts::AddressBytes;
use crate::bytes::bytes_eq;
use crate::codes::CodeMap;
use crate::hashing::hex_decode;
use crate::hashing::hex_decoded;
use crate::hashing::keccak;
use crate::hashing::keccak_of;
use crate::nibbles::NibblePath;
use crate::nibbles::nibbles_of_bytes;
use crate::replay::ProofError;
use crate::replay::insert_proof;
use crate::replay::replay_nodes;
use crate::replay::views_of;
use crate::rlp_codec::rlp_encode_word;
use crate::rlp_codec::rlp_of_word;
use crate::skeleton::EntryView;
use crate::skeleton::TrieSkeleton;
use crate::skeleton::digests_of;
use crate::skeleton::values_of;
use crate::trie_backend::build_trie;
use crate::trie_backend::root_of;
use crate::trie_backend::trie_root;

verus! {

/// Why an assembly attempt failed.
#[derive(Clone, Copy, Debug, PartialEq, Eq, Structural)]
pub enum AssemblyError {
    /// A Merkle proof was refused by the replayer.
    Replay(ProofError),
    /// A freshly rebuilt storage trie does not hold the value the proof
    /// fetch reported for a non-zero slot.
    StorageValueMismatch,
    /// A rebuilt storage trie's root differs from the claimed storage hash.
    StorageRootMismatch,
    /// The assembled state trie's root differs from the previous block's
    /// state root.
    StateRootMismatch,
    /// An account's trace-reported code is not a hex string.
    BadCodeHex,
}

/// One withdrawal with its fetched account proof.
pub struct WithdrawalInput {
    pub address: AddressBytes,
    pub amount_gwei: u64,
    pub proof: Vec<Vec<u8>>,
    pub account_empty: bool,
}

/// One storage slot with its fetched proof and reported value.
pub struct SlotProofInput {
    pub key: Vec<u8>,
    pub value: Vec<u8>,
    pub proof: Vec<Vec<u8>>,
}

/// One touched account with everything fetched for it.
pub struct AccountInput {
    pub address: AddressBytes,
    pub code_hex: Option<Vec<u8>>,
    pub account_proof: Vec<Vec<u8>>,
    pub account_empty: bool,
    pub has_storage: bool,
    pub storage_hash: Vec<u8>,
    pub storage_proofs: Vec<SlotProofInput>,
}

/// Block metadata for the generator, as plain values.
pub struct BlockMetadata {
    pub beneficiary: Vec<u8>,
    pub timestamp: u64,
    pub number: u64,
    pub randomness: Vec<u8>,
    pub gas_limit: u64,
    pub chain_id: u64,
    pub base_fee: u128,
}

/// Everything one assembly attempt works from.
pub struct AssemblyInput {
    pub txn_rlps: Vec<Vec<u8>>,
    pub metadata: BlockMetadata,
    pub withdrawals: Vec<WithdrawalInput>,
    pub accounts: Vec<AccountInput>,
    pub prev_state_root: Vec<u8>,
    pub final_state_root: Vec<u8>,
}

/// One rebuilt storage trie, under the hashed account address.
pub struct StorageTrieEntry {
    pub hashed_address: Vec<u8>,
    pub skeleton: TrieSkeleton,
    pub trie: eth_trie_utils::partial_trie::PartialTrie,
}

/// One withdrawal, its amount in the chain's native unit.
pub struct WithdrawalPayment {
    pub address: AddressBytes,
    pub amount_wei: u128,
}

/// The generator's input: transactions, metadata, tries, code and the
/// expected post-state root.
pub struct WitnessBundle {
    pub txn_rlps: Vec<Vec<u8>>,
    pub metadata: BlockMetadata,
    pub state_skeleton: TrieSkeleton,
    pub state_trie: eth_trie_utils::partial_trie::PartialTrie,
    pub state_root: Vec<u8>,
    pub storage_tries: Vec<StorageTrieEntry>,
    pub codes: CodeMap,
    pub withdrawals: Vec<WithdrawalPayment>,
    pub expected_final_root: Vec<u8>,
}

/// A slot holds a value exactly when some byte of it is non-zero.
pub open spec fn slot_nonzero(v: Seq<u8>) -> bool {
    exists|i: int| 0 <= i < v.len() && v[i] != 0
}

/// Replaying one proof for a raw key: the trie key is the Keccak-256
/// digest of the raw key.
pub open spec fn replay_outcome(
    m: Map<Seq<u8>, EntryView>,
    raw_key: Seq<u8>,
    nodes: Seq<Seq<u8>>,
    value_exists: bool,
) -> (Map<Seq<u8>, EntryView>, Option<ProofError>) {
    let out = replay_nodes(m, nibbles_of_bytes(keccak_of(raw_key)), nodes, value_exists);
    (out.0, out.2)
}

/// Replaying the withdrawal account proofs in order.
pub open spec fn withdrawals_fold(
    m: Map<Seq<u8>, EntryView>,
    ws: Seq<WithdrawalInput>,
) -> (Map<Seq<u8>, EntryView>, Option<ProofError>)
    decreases ws.len(),
{
    if ws.len() == 0 {
        (m, None)
    } else {
        let (m1, e1) = withdrawals_fold(m, ws.drop_last());
        if e1 is Some {
            (m1, e1)
        } else {
            let w = ws.last();
            replay_outcome(m1, w.address@, views_of(w.proof@), !w.account_empty)
        }
    }
}

/// Replaying one account's storage proofs in order, checking after each
/// non-zero slot that the freshly built trie decodes to the reported
/// value.
pub open spec fn storage_fold(
    m: Map<Seq<u8>, EntryView>,
    slots: Seq<SlotProofInput>,
) -> (Map<Seq<u8>, EntryView>, Option<AssemblyError>)
    decreases slots.len(),
{
    if slots.len() == 0 {
        (m, None)
    } else {
        let (m1, e1) = storage_fold(m, slots.drop_last());
        if e1 is Some {
            (m1, e1)
        } else {
            let sp = slots.last();
            let (m2, e2) = replay_outcome(m1, sp.key@, views_of(sp.proof@), slot_nonzero(sp.value@));
            if e2 is Some {
                (m2, Some(AssemblyError::Replay(e2->0)))
            } else if slot_nonzero(sp.value@) {
                let path = nibbles_of_bytes(keccak_of(sp.key@));
                if values_of(m2).contains_key(path) && values_of(m2)[path] == rlp_of_word(
                    sp.value@,
                ) {
                    (m2, None)
                } else {
                    (m2, Some(AssemblyError::StorageValueMismatch))
                }
            } else {
                (m2, None)
            }
        }
    }
}

/// One account's storage trie with its root check: the rebuilt root must
/// equal the claimed storage hash.
pub open spec fn account_storage_outcome(acc: AccountInput) -> (
    Map<Seq<u8>, EntryView>,
    Option<AssemblyError>,
) {
    let step = storage_fold(Map::empty(), acc.storage_proofs@);
    if step.1 is Some {
        step
    } else if root_of(values_of(step.0), digests_of(step.0)) == acc.storage_hash@ {
        (step.0, None)
    } else {
        (step.0, Some(AssemblyError::StorageRootMismatch))
    }
}

/// The code an account's hex string stands for: two bytes of prefix, then
/// hex digits.
pub open spec fn decoded_code(h: Seq<u8>) -> Option<Seq<u8>> {
    if h.len() >= 2 {
        hex_decoded(h.skip(2))
    } else {
        None
    }
}

/// One account's whole effect on the state skeleton: account proof
/// replayed, storage checked, code decodable.
pub open spec fn account_step(
    m: Map<Seq<u8>, EntryView>,
    acc: AccountInput,
) -> (Map<Seq<u8>, EntryView>, Option<AssemblyError>) {
    let (m1, e1) = replay_outcome(m, acc.address@, views_of(acc.account_proof@), !acc.account_empty);
    if e1 is Some {
        (m1, Some(AssemblyError::Replay(e1->0)))
    } else if acc.has_storage && account_storage_outcome(acc).1 is Some {
        (m1, account_storage_outcome(acc).1)
    } else {
        match acc.code_hex {
            Some(h) => if decoded_code(h@) is Some {
                (m1, None)
            } else {
                (m1, Some(AssemblyError::BadCodeHex))
            },
            None => (m1, None),
        }
    }
}

/// Replaying all account proofs in order, with their storage and code.
pub open spec fn accounts_fold(
    m: Map<Seq<u8>, EntryView>,
    accs: Seq<AccountInput>,
) -> (Map<Seq<u8>, EntryView>, Option<AssemblyError>)
    decreases accs.len(),
{
    if accs.len() == 0 {
        (m, None)
    } else {
        let (m1, e1) = accounts_fold(m, accs.drop_last());
        if e1 is Some {
            (m1, e1)
        } else {
            account_step(m1, accs.last())
        }
    }
}

/// The code map after all accounts: reported code stored under its digest,
/// over the seeded empty-code entry.
pub open spec fn codes_fold(
    cm: Map<Seq<u8>, Seq<u8>>,
    accs: Seq<AccountInput>,
) -> Map<Seq<u8>, Seq<u8>>
    decreases accs.len(),
{
    if accs.len() == 0 {
        cm
    } else {
        let c = codes_fold(cm, accs.drop_last());
        match accs.last().code_hex {
            Some(h) => match decoded_code(h@) {
                Some(code) => c.insert(keccak_of(code), code),
                None => c,
            },
            None => c,
        }
    }
}

/// The storage tries of a bundle follow the accounts that have storage, in
/// order, each holding exactly what that account's checked replay built.
pub open spec fn storage_tries_match(ts: Seq<StorageTrieEntry>, accs: Seq<AccountInput>) -> bool
    decreases accs.len(),
{
    if accs.len() == 0 {
        ts.len() == 0
    } else {
        let acc = accs.last();
        if acc.has_storage {
            &&& ts.len() > 0
            &&& ts.last().hashed_address@ == keccak_of(acc.address@)
            &&& ts.last().skeleton@ == account_storage_outcome(acc).0
            &&& ts.last().skeleton.wf()
            &&& storage_tries_match(ts.drop_last(), accs.drop_last())
        } else {
            storage_tries_match(ts, accs.drop_last())
        }
    }
}

/// Whether every field of the input has the machine shape the chain gives
/// it: 20-byte addresses, 32-byte slot values and roots.
pub open spec fn input_wf(input: AssemblyInput) -> bool {
    &&& forall|i: int|
        0 <= i < input.withdrawals@.len() ==> (#[trigger] input.withdrawals@[i]).address.wf()
    &&& forall|i: int|
        0 <= i < input.accounts@.len() ==> (#[trigger] input.accounts@[i]).address.wf()
            && account_slots_wf(input.accounts@[i])
    &&& input.prev_state_root@.len() == 32
    &&& input.final_state_root@.len() == 32
}

pub open spec fn account_slots_wf(acc: AccountInput) -> bool {
    forall|j: int|
        0 <= j < acc.storage_proofs@.len() ==> (#[trigger] acc.storage_proofs@[j]).value@.len()
            == 32
}

/// A withdrawal amount in the chain's native unit: some providers report
/// a smaller denomination, off by a fixed factor of a billion.
pub fn gwei_to_wei(amount_gwei: u64) -> (r: u128)
    ensures
        r == amount_gwei * 1_000_000_000u128,
{
    proof {
        assert(amount_gwei * 1_000_000_000u128 <= u64::MAX * 1_000_000_000u128)
            by (nonlinear_arith);
    }
    (amount_gwei as u128) * 1_000_000_000u128
}

/// The code bytes of a trace-reported hex string: two bytes of prefix are
/// skipped, the rest must be hex digits.
pub fn hex_code_bytes(h: &Vec<u8>) -> (r: Option<Vec<u8>>)
    ensures
        match r {
            Some(code) => decoded_code(h@) == Some(code@),
            None => decoded_code(h@) is None,
        },
{
    if h.len() < 2 {
        return None;
    }
    let mut tail: Vec<u8> = Vec::new();
    let n = h.len();
    let mut i: usize = 2;
    while i < n
        invariant
            2 <= i <= n,
            n == h@.len(),
            tail@ == h@.subrange(2, i as int),
        decreases n - i,
    {
        tail.push(h[i]);
        proof {
            assert(h@.subrange(2, i as int).push(h@[i as int]) =~= h@.subrange(2, i + 1 as int));
        }
        i = i + 1;
    }
    proof {
        assert(h@.subrange(2, n as int) =~= h@.skip(2));
    }
    hex_decode(&tail)
}

/// Whether any byte of a reported slot value is non-zero.
pub fn value_nonzero(v: &Vec<u8>) -> (r: bool)
    ensures
        r == slot_nonzero(v@),
{
    let n = v.len();
    let mut i: usize = 0;
    while i < n
        invariant
            i <= n,
            n == v@.len(),
            forall|j: int| 0 <= j < i ==> v@[j] == 0,
        decreases n - i,
    {
        if v[i] != 0 {
            return true;
        }
        i = i + 1;
    }
    false
}

/// Once a slot is refused, later slots change nothing.
proof fn lemma_storage_error_stable(
    m: Map<Seq<u8>, EntryView>,
    slots: Seq<SlotProofInput>,
    k: int,
)
    requires
        0 <= k <= slots.len(),
        storage_fold(m, slots.take(k)).1 is Some,
    ensures
        storage_fold(m, slots) == storage_fold(m, slots.take(k)),
    decreases slots.len(),
{
    if k == slots.len() {
        assert(slots.take(k) =~= slots);
    } else {
        assert(slots.drop_last().take(k) =~= slots.take(k));
        lemma_storage_error_stable(m, slots.drop_last(), k);
    }
}

/// Once a withdrawal proof is refused, later withdrawals change nothing.
proof fn lemma_withdrawals_error_stable(
    m: Map<Seq<u8>, EntryView>,
    ws: Seq<WithdrawalInput>,
    k: int,
)
    requires
        0 <= k <= ws.len(),
        withdrawals_fold(m, ws.take(k)).1 is Some,
    ensures
        withdrawals_fold(m, ws) == withdrawals_fold(m, ws.take(k)),
    decreases ws.len(),
{
    if k == ws.len() {
        assert(ws.take(k) =~= ws);
    } else {
        assert(ws.drop_last().take(k) =~= ws.take(k));
        lemma_withdrawals_error_stable(m, ws.drop_last(), k);
    }
}

/// Once an account is refused, later accounts change nothing.
proof fn lemma_accounts_error_stable(
    m: Map<Seq<u8>, EntryView>,
    accs: Seq<AccountInput>,
    k: int,
)
    requires
        0 <= k <= accs.len(),
        accounts_fold(m, accs.take(k)).1 is Some,
    ensures
        accounts_fold(m, accs) == accounts_fold(m, accs.take(k)),
    decreases accs.len(),
{
    if k == accs.len() {
        assert(accs.take(k) =~= accs);
    } else {
        assert(accs.drop_last().take(k) =~= accs.take(k));
        lemma_accounts_error_stable(m, accs.drop_last(), k);
    }
}

/// Replays one account's storage proofs into a fresh skeleton, checking
/// each reported non-zero value against the rebuilt trie.
#[verifier::loop_isolation(false)]
pub fn build_storage_skeleton(slots: &Vec<SlotProofInput>) -> (r: Result<
    TrieSkeleton,
    AssemblyError,
>)
    requires
        forall|j: int| 0 <= j < slots@.len() ==> (#[trigger] slots@[j]).value@.len() == 32,
    ensures
        ({
            let out = storage_fold(Map::<Seq<u8>, EntryView>::empty(), slots@);
            match r {
                Ok(sk) => sk.wf() && out.1 is None && sk@ == out.0,
                Err(e) => out.1 == Some(e),
            }
        }),
{
    let mut skel = TrieSkeleton::new();
    let n = slots.len();
    let mut k: usize = 0;
    while k < n
        invariant
            skel.wf(),
            k <= n,
            storage_fold(Map::<Seq<u8>, EntryView>::empty(), slots@.take(k as int)) == (
                skel@,
                Option::<AssemblyError>::None,
            ),
        decreases n - k,
    {
        proof {
            assert(slots@.take(k + 1 as int).drop_last() =~= slots@.take(k as int));
            assert(slots@.take(k + 1 as int).last() == slots@[k as int]);
        }
        let sp = &slots[k];
        let hashed = keccak(sp.key.as_slice());
        let mut key: Vec<u8> = Vec::new();
        let mut i: usize = 0;
        while i < 32
            invariant
                i <= 32,
                hashed@ == keccak_of(sp.key@),
                key@ == hashed@.take(i as int),
            decreases 32 - i,
        {
            key.push(hashed[i]);
            proof {
                assert(hashed@.take(i as int).push(hashed@[i as int]) =~= hashed@.take(
                    i + 1 as int,
                ));
            }
            i = i + 1;
        }
        proof {
            assert(hashed@.take(32) =~= hashed@);
        }
        let ghost pre_m = skel@;
        let exists_flag = value_nonzero(&sp.value);
        match insert_proof(&mut skel, &key, &sp.proof, exists_flag) {
            Ok(_) => {},
            Err(e) => {
                proof {
                    assert(storage_fold(
                        Map::<Seq<u8>, EntryView>::empty(),
                        slots@.take(k + 1 as int),
                    ) == (skel@, Some(AssemblyError::Replay(e))));
                    lemma_storage_error_stable(
                        Map::<Seq<u8>, EntryView>::empty(),
                        slots@,
                        k + 1,
                    );
                }
                return Err(AssemblyError::Replay(e));
            },
        }
        let ghost m2 = skel@;
        if exists_flag {
            let path = NibblePath::from_bytes(key.as_slice());
            proof {
                assert(path@ == nibbles_of_bytes(keccak_of(sp.key@)));
            }
            let expected = rlp_encode_word(&sp.value);
            let value_ok = match skel.lookup_value(&path) {
                Some(got) => bytes_eq(&got, &expected),
                None => false,
            };
            proof {
                assert(value_ok == (values_of(m2).contains_key(path@) && values_of(m2)[path@]
                    == rlp_of_word(sp.value@)));
            }
            if !value_ok {
                proof {
                    assert(storage_fold(
                        Map::<Seq<u8>, EntryView>::empty(),
                        slots@.take(k + 1 as int),
                    ) == (skel@, Some(AssemblyError::StorageValueMismatch)));
                    lemma_storage_error_stable(
                        Map::<Seq<u8>, EntryView>::empty(),
                        slots@,
                        k + 1,
                    );
                }
                return Err(AssemblyError::StorageValueMismatch);
            }
        }
        proof {
            assert(storage_fold(
                Map::<Seq<u8>, EntryView>::empty(),
                slots@.take(k + 1 as int),
            ) == (skel@, Option::<AssemblyError>::None));
        }
        k = k + 1;
    }
    proof {
        assert(slots@.take(n as int) =~= slots@);
    }
    Ok(skel)
}

/// Assembles the witness for one block from the fetched data: withdrawal
/// and account proofs replayed into one state trie, a checked storage trie
/// per storage-holding account, code collected by digest, and the single
/// strongest check last: the assembled state trie's root must equal the
/// previous block's state root.
#[verifier::loop_isolation(false)]
#[verifier::rlimit(60)]
pub fn assemble_block(input: AssemblyInput) -> (r: Result<WitnessBundle, AssemblyError>)
    requires
        input_wf(input),
    ensures
        ({
            let wout = withdrawals_fold(Map::<Seq<u8>, EntryView>::empty(), input.withdrawals@);
            let aout = accounts_fold(wout.0, input.accounts@);
            match r {
                Ok(bundle) => {
                    &&& wout.1 is None
                    &&& aout.1 is None
                    &&& root_of(values_of(aout.0), digests_of(aout.0)) == input.prev_state_root@
                    &&& bundle.state_skeleton@ == aout.0
                    &&& bundle.state_skeleton.wf()
                    &&& bundle.state_root@ == input.prev_state_root@
                    &&& bundle.txn_rlps == input.txn_rlps
                    &&& bundle.metadata == input.metadata
                    &&& bundle.expected_final_root@ == input.final_state_root@
                    &&& bundle.codes@ == codes_fold(
                        Map::<Seq<u8>, Seq<u8>>::empty().insert(
                            keccak_of(Seq::<u8>::empty()),
                            Seq::<u8>::empty(),
                        ),
                        input.accounts@,
                    )
                    &&& bundle.codes.wf()
                    &&& storage_tries_match(bundle.storage_tries@, input.accounts@)
                    &&& bundle.withdrawals@.len() == input.withdrawals@.len()
                    &&& forall|i: int|
                        0 <= i < input.withdrawals@.len() ==> (
                        #[trigger] bundle.withdrawals@[i]).address@
                            == input.withdrawals@[i].address@ && bundle.withdrawals@[i].amount_wei
                            == input.withdrawals@[i].amount_gwei * 1_000_000_000u128
                },
                Err(e) => {
                    if wout.1 is Some {
                        e == AssemblyError::Replay(wout.1->0)
                    } else if aout.1 is Some {
                        e == aout.1->0
                    } else {
                        e == AssemblyError::StateRootMismatch && root_of(
                            values_of(aout.0),
                            digests_of(aout.0),
                        ) != input.prev_state_root@
                    }
                },
            }
        }),
{
    let AssemblyInput { txn_rlps, metadata, withdrawals, accounts, prev_state_root, final_state_root } =
        input;
    let mut skel = TrieSkeleton::new();
    // Withdrawals: one account proof each, merged into the state skeleton.
    let wn = withdrawals.len();
    let mut k: usize = 0;
    while k < wn
        invariant
            skel.wf(),
            k <= wn,
            withdrawals_fold(Map::<Seq<u8>, EntryView>::empty(), withdrawals@.take(k as int)) == (
                skel@,
                Option::<ProofError>::None,
            ),
        decreases wn - k,
    {
        proof {
            assert(withdrawals@.take(k + 1 as int).drop_last() =~= withdrawals@.take(k as int));
            assert(withdrawals@.take(k + 1 as int).last() == withdrawals@[k as int]);
        }
        let w = &withdrawals[k];
        let hashed = keccak(w.address.as_bytes().as_slice());
        let mut key: Vec<u8> = Vec::new();
        let mut i: usize = 0;
        while i < 32
            invariant
                i <= 32,
                hashed@ == keccak_of(w.address@),
                key@ == hashed@.take(i as int),
            decreases 32 - i,
        {
            key.push(hashed[i]);
            proof {
                assert(hashed@.take(i as int).push(hashed@[i as int]) =~= hashed@.take(
                    i + 1 as int,
                ));
            }
            i = i + 1;
        }
        proof {
            assert(hashed@.take(32) =~= hashed@);
        }
        let ghost pre_m = skel@;
        match insert_proof(&mut skel, &key, &w.proof, !w.account_empty) {
            Ok(_) => {},
            Err(e) => {
                proof {
                    assert(withdrawals_fold(
                        Map::<Seq<u8>, EntryView>::empty(),
                        withdrawals@.take(k + 1 as int),
                    ) == (skel@, Some(e)));
                    lemma_withdrawals_error_stable(
                        Map::<Seq<u8>, EntryView>::empty(),
                        withdrawals@,
                        k + 1,
                    );
                }
                return Err(AssemblyError::Replay(e));
            },
        }
        proof {
            assert(withdrawals_fold(
                Map::<Seq<u8>, EntryView>::empty(),
                withdrawals@.take(k + 1 as int),
            ) == (skel@, Option::<ProofError>::None));
        }
        k = k + 1;
    }
    proof {
        assert(withdrawals@.take(wn as int) =~= withdrawals@);
    }
    let ghost after_withdrawals = skel@;
    // Accounts: account proof, storage trie with its checks, code.
    let mut codes = CodeMap::with_empty_code();
    let mut storage_tries: Vec<StorageTrieEntry> = Vec::new();
    let an = accounts.len();
    let mut k2: usize = 0;
    while k2 < an
        invariant
            skel.wf(),
            codes.wf(),
            k2 <= an,
            accounts_fold(after_withdrawals, accounts@.take(k2 as int)) == (
                skel@,
                Option::<AssemblyError>::None,
            ),
            codes@ == codes_fold(
                Map::<Seq<u8>, Seq<u8>>::empty().insert(
                    keccak_of(Seq::<u8>::empty()),
                    Seq::<u8>::empty(),
                ),
                accounts@.take(k2 as int),
            ),
            storage_tries_match(storage_tries@, accounts@.take(k2 as int)),
        decreases an - k2,
    {
        proof {
            assert(accounts@.take(k2 + 1 as int).drop_last() =~= accounts@.take(k2 as int));
            assert(accounts@.take(k2 + 1 as int).last() == accounts@[k2 as int]);
        }
        let acc = &accounts[k2];
        let hashed = keccak(acc.address.as_bytes().as_slice());
        let mut key: Vec<u8> = Vec::new();
        let mut i: usize = 0;
        while i < 32
            invariant
                i <= 32,
                hashed@ == keccak_of(acc.address@),
                key@ == hashed@.take(i as int),
            decreases 32 - i,
        {
            key.push(hashed[i]);
            proof {
                assert(hashed@.take(i as int).push(hashed@[i as int]) =~= hashed@.take(
                    i + 1 as int,
                ));
            }
            i = i + 1;
        }
        proof {
            assert(hashed@.take(32) =~= hashed@);
        }
        let ghost pre_m = skel@;
        match insert_proof(&mut skel, &key, &acc.account_proof, !acc.account_empty) {
            Ok(_) => {},
            Err(e) => {
                proof {
                    assert(account_step(pre_m, accounts@[k2 as int]) == (
                        skel@,
                        Some(AssemblyError::Replay(e)),
                    ));
                    assert(accounts_fold(after_withdrawals, accounts@.take(k2 + 1 as int)) == (
                        skel@,
                        Some(AssemblyError::Replay(e)),
                    ));
                    lemma_accounts_error_stable(after_withdrawals, accounts@, k2 + 1);
                }
                return Err(AssemblyError::Replay(e));
            },
        }
        let ghost m1 = skel@;
        if acc.has_storage {
            let storage_skel = match build_storage_skeleton(&acc.storage_proofs) {
                Ok(sk) => sk,
                Err(e) => {
                    proof {
                        assert(account_storage_outcome(accounts@[k2 as int]).1 == Some(e));
                        assert(account_step(pre_m, accounts@[k2 as int]) == (m1, Some(e)));
                        assert(accounts_fold(after_withdrawals, accounts@.take(k2 + 1 as int))
                            == (m1, Some(e)));
                        lemma_accounts_error_stable(after_withdrawals, accounts@, k2 + 1);
                    }
                    return Err(e);
                },
            };
            let storage_trie = build_trie(&storage_skel);
            let root = trie_root(&storage_trie);
            let mut root_vec: Vec<u8> = Vec::new();
            let mut i2: usize = 0;
            while i2 < 32
                invariant
                    i2 <= 32,
                    root_vec@ == root@.take(i2 as int),
                decreases 32 - i2,
            {
                root_vec.push(root[i2]);
                proof {
                    assert(root@.take(i2 as int).push(root@[i2 as int]) =~= root@.take(
                        i2 + 1 as int,
                    ));
                }
                i2 = i2 + 1;
            }
            proof {
                assert(root@.take(32) =~= root@);
            }
            if !bytes_eq(&root_vec, &acc.storage_hash) {
                proof {
                    assert(account_storage_outcome(accounts@[k2 as int]).1 == Some(
                        AssemblyError::StorageRootMismatch,
                    ));
                    assert(account_step(pre_m, accounts@[k2 as int]) == (
                        m1,
                        Some(AssemblyError::StorageRootMismatch),
                    ));
                    assert(accounts_fold(after_withdrawals, accounts@.take(k2 + 1 as int)) == (
                        m1,
                        Some(AssemblyError::StorageRootMismatch),
                    ));
                    lemma_accounts_error_stable(after_withdrawals, accounts@, k2 + 1);
                }
                return Err(AssemblyError::StorageRootMismatch);
            }
            proof {
                assert(account_storage_outcome(accounts@[k2 as int]).1 is None);
            }
            let ghost pre_tries = storage_tries@;
            storage_tries.push(
                StorageTrieEntry { hashed_address: key, skeleton: storage_skel, trie: storage_trie },
            );
            proof {
                assert(storage_tries@.drop_last() =~= pre_tries);
                assert(storage_tries@.last().hashed_address@ == keccak_of(acc.address@));
                assert(storage_tries@.last().skeleton@ == account_storage_outcome(
                    accounts@[k2 as int],
                ).0);
            }
        }
        match &acc.code_hex {
            Some(h) => {
                match hex_code_bytes(h) {
                    Some(code) => {
                        codes.add_code(code);
                    },
                    None => {
                        proof {
                            assert(account_step(pre_m, accounts@[k2 as int]) == (
                                m1,
                                Some(AssemblyError::BadCodeHex),
                            ));
                            assert(accounts_fold(
                                after_withdrawals,
                                accounts@.take(k2 + 1 as int),
                            ) == (m1, Some(AssemblyError::BadCodeHex)));
                            lemma_accounts_error_stable(after_withdrawals, accounts@, k2 + 1);
                        }
                        return Err(AssemblyError::BadCodeHex);
                    },
                }
            },
            None => {},
        }
        proof {
            assert(account_step(pre_m, accounts@[k2 as int]) == (
                skel@,
                Option::<AssemblyError>::None,
            ));
            assert(accounts_fold(after_withdrawals, accounts@.take(k2 + 1 as int)) == (
                skel@,
                Option::<AssemblyError>::None,
            ));
        }
        k2 = k2 + 1;
    }
    proof {
        assert(accounts@.take(an as int) =~= accounts@);
    }
    // The single strongest end-to-end check: the assembled root must be
    // the chain's real previous state root.
    let state_root_arr = skeleton_root_vec(&skel);
    if !bytes_eq(&state_root_arr, &prev_state_root) {
        return Err(AssemblyError::StateRootMismatch);
    }
    let state_trie = build_trie(&skel);
    // Withdrawal amounts, normalized to the native unit.
    let mut payments: Vec<WithdrawalPayment> = Vec::new();
    let pn = withdrawals.len();
    let mut k3: usize = 0;
    while k3 < pn
        invariant
            k3 <= pn,
            payments@.len() == k3,
            forall|i: int|
                0 <= i < k3 ==> (#[trigger] payments@[i]).address@ == withdrawals@[i].address@
                    && payments@[i].amount_wei == withdrawals@[i].amount_gwei * 1_000_000_000u128,
        decreases pn - k3,
    {
        let w = &withdrawals[k3];
        payments.push(
            WithdrawalPayment {
                address: w.address.duplicate(),
                amount_wei: gwei_to_wei(w.amount_gwei),
            },
        );
        k3 = k3 + 1;
    }
    Ok(
        WitnessBundle {
            txn_rlps,
            metadata,
            state_skeleton: skel,
            state_trie,
            state_root: state_root_arr,
            storage_tries,
            codes,
            withdrawals: payments,
            expected_final_root: final_state_root,
        },
    )
}

/// The canonical root of a skeleton, as plain bytes.
pub fn skeleton_root_vec(skel: &TrieSkeleton) -> (r: Vec<u8>)
    requires
        skel.wf(),
    ensures
        r@ == root_of(values_of(skel@), digests_of(skel@)),
        r@.len() == 32,
{
    let t = build_trie(skel);
    let root = trie_root(&t);
    let mut out: Vec<u8> = Vec::new();
    let mut i: usize = 0;
    while i < 32
        invariant
            i <= 32,
            out@ == root@.take(i as int),
            root@ == root_of(values_of(skel@), digests_of(skel@)),
        decreases 32 - i,
    {
        out.push(root[i]);
        proof {
            assert(root@.take(i as int).push(root@[i as int]) =~= root@.take(i + 1 as int));
        }
        i = i + 1;
    }
    proof {
        assert(root@.take(32) =~= root@);
    }
    out
}

/// The emptiness test a fetched account proof answers: zero balance, zero
/// nonce, and the code hash of empty code.
pub fn account_is_empty(balance: &Vec<u8>, nonce: &Vec<u8>, code_hash: &Vec<u8>) -> (r: bool)
    ensures
        r == (!slot_nonzero(balance@) && !slot_nonzero(nonce@) && code_hash@ == keccak_of(
            Seq::<u8>::empty(),
        )),
{
    if value_nonzero(balance) || value_nonzero(nonce) {
        return false;
    }
    let empty: Vec<u8> = Vec::new();
    let d = keccak(empty.as_slice());
    let mut empty_digest: Vec<u8> = Vec::new();
    let mut i: usize = 0;
    while i < 32
        invariant
            i <= 32,
            d@ == keccak_of(Seq::<u8>::empty()),
            empty_digest@ == d@.take(i as int),
        decreases 32 - i,
    {
        empty_digest.push(d[i]);
        proof {
            assert(d@.take(i as int).push(d@[i as int]) =~= d@.take(i + 1 as int));
        }
        i = i + 1;
    }
    proof {
        assert(d@.take(32) =~= d@);
    }
    bytes_eq(code_hash, &empty_digest)
}

} // verus!
