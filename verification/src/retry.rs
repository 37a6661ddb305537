//! The retry controller's verified core: interpreting the generator's
//! outcome, the grinding search for a storage slot whose hashed path
//! surfaces a missing sibling, and the growing per-block slot
//! augmentations.

use vstd::prelude::*;

use crate::accounts::AddressBytes;
use crate::bytes::bytes_eq;
use crate::bytes::copy_bytes;
use crate::hashing::keccak;
use crate::hashing::keccak_of;
use crate::hashing::sample_bytes32;
use crate::nibbles::NibblePath;
use crate::nibbles::nibbles_of_bytes;
use crate::replay::views_of;

verus! {

/// Why a retry step failed for good.
#[derive(Clone, Copy, Debug, PartialEq, Eq, Structural)]
pub enum RetryError {
    /// The grinding search hit its attempt bound without a match.
    GrindExhausted,
    /// The generator failed outside the one recoverable class.
    GeneratorFailed,
}

/// What the external witness generator reported for one attempt.
pub enum GeneratorOutcome {
    /// Generation went through; the computed post-state root came back.
    Success { computed_root: Vec<u8> },
    /// The one recoverable class: while deleting a branch, the generator
    /// needed a sibling it does not have; the payload names the selector
    /// nibble, the account, the storage slot under which the fault arose,
    /// and the depth in nibbles at which the sibling would sit.
    MissingSibling { nibble: u8, address: AddressBytes, slot: Vec<u8>, depth: u8 },
    /// Any other failure: fatal, never retried.
    OtherFailure,
}

/// The nibble path at which the missing sibling must surface: the hashed
/// form of the faulting slot, truncated by `depth` nibbles from the back,
/// with the selector nibble appended.
pub open spec fn sibling_target(nibble: u8, slot: Seq<u8>, depth: int) -> Seq<u8> {
    nibbles_of_bytes(keccak_of(slot)).take(64 - depth).push(nibble)
}

/// One address's extra slots.
pub struct AugEntry {
    pub address: AddressBytes,
    pub slots: Vec<Vec<u8>>,
}

/// The map an entry list stands for: address to its slot list.
pub open spec fn aug_map_of(s: Seq<AugEntry>) -> Map<Seq<u8>, Seq<Seq<u8>>>
    decreases s.len(),
{
    if s.len() == 0 {
        Map::empty()
    } else {
        aug_map_of(s.drop_last()).insert(s.last().address@, views_of(s.last().slots@))
    }
}

/// Adding one slot: a slot already recorded for the address changes
/// nothing; a new one is appended; a first slot opens the address.
pub open spec fn aug_insert(
    m: Map<Seq<u8>, Seq<Seq<u8>>>,
    addr: Seq<u8>,
    slot: Seq<u8>,
) -> Map<Seq<u8>, Seq<Seq<u8>>> {
    if m.contains_key(addr) {
        if m[addr].contains(slot) {
            m
        } else {
            m.insert(addr, m[addr].push(slot))
        }
    } else {
        m.insert(addr, seq![slot])
    }
}

/// The law that retry augmentation is monotone: across one growth step no
/// address's slot list shrinks or changes order, every address stays, and
/// a slot is appended only when it is distinct from every slot already
/// recorded for that address.
pub proof fn lemma_augmentation_monotonic(
    m: Map<Seq<u8>, Seq<Seq<u8>>>,
    addr: Seq<u8>,
    slot: Seq<u8>,
)
    ensures
        ({
            let m2 = aug_insert(m, addr, slot);
            &&& forall|a: Seq<u8>|
                m.contains_key(a) ==> m2.contains_key(a) && m2[a].take(m[a].len() as int) == m[a]
                    && m2[a].len() >= m[a].len()
            &&& m2.contains_key(addr)
            &&& m2[addr].contains(slot)
            &&& (m.contains_key(addr) && m[addr].contains(slot)) ==> m2 == m
            &&& !(m.contains_key(addr) && m[addr].contains(slot)) ==> (m2[addr].last() == slot
                && !m2[addr].drop_last().contains(slot))
        }),
{
    let m2 = aug_insert(m, addr, slot);
    assert forall|a: Seq<u8>| m.contains_key(a) implies m2.contains_key(a) && m2[a].take(
        m[a].len() as int,
    ) == m[a] && m2[a].len() >= m[a].len() by {
        if a == addr && m.contains_key(addr) && !m[addr].contains(slot) {
            assert(m[addr].push(slot).take(m[addr].len() as int) =~= m[addr]);
        } else {
            assert(m2[a].take(m[a].len() as int) =~= m[a]);
        }
    }
    if m.contains_key(addr) {
        if m[addr].contains(slot) {
        } else {
            assert(m2[addr].last() == slot);
            assert(m2[addr].drop_last() =~= m[addr]);
            assert(m2[addr].contains(slot)) by {
                assert(m2[addr][m2[addr].len() - 1] == slot);
            }
        }
    } else {
        assert(m2[addr] == seq![slot]);
        assert(m2[addr][0] == slot);
        assert(m2[addr].drop_last() =~= Seq::<Seq<u8>>::empty());
    }
}

/// Extra storage slots per address, grown across one block's retries.
pub struct SlotAugmentations {
    entries: Vec<AugEntry>,
}

impl View for SlotAugmentations {
    type V = Map<Seq<u8>, Seq<Seq<u8>>>;

    closed spec fn view(&self) -> Map<Seq<u8>, Seq<Seq<u8>>> {
        aug_map_of(self.entries@)
    }
}

proof fn lemma_aug_map_contains(s: Seq<AugEntry>, p: Seq<u8>)
    ensures
        aug_map_of(s).contains_key(p) <==> exists|i: int|
            0 <= i < s.len() && s[i].address@ == p,
    decreases s.len(),
{
    if s.len() > 0 {
        lemma_aug_map_contains(s.drop_last(), p);
        if s.last().address@ == p {
            assert(s[s.len() - 1].address@ == p);
        } else {
            if aug_map_of(s).contains_key(p) {
                let i = choose|i: int|
                    0 <= i < s.drop_last().len() && s.drop_last()[i].address@ == p;
                assert(s[i].address@ == p);
            }
            if exists|i: int| 0 <= i < s.len() && s[i].address@ == p {
                let i = choose|i: int| 0 <= i < s.len() && s[i].address@ == p;
                assert(s.drop_last()[i].address@ == p);
            }
        }
    }
}

proof fn lemma_aug_map_index(s: Seq<AugEntry>, i: int)
    requires
        0 <= i < s.len(),
        forall|a: int, b: int|
            0 <= a < s.len() && 0 <= b < s.len() && a != b ==> (#[trigger] s[a]).address@
                != (#[trigger] s[b]).address@,
    ensures
        aug_map_of(s).contains_key(s[i].address@),
        aug_map_of(s)[s[i].address@] == views_of(s[i].slots@),
    decreases s.len(),
{
    lemma_aug_map_contains(s, s[i].address@);
    if i < s.len() - 1 {
        assert(s.last().address@ != s[i].address@);
        assert(s.drop_last()[i] == s[i]);
        lemma_aug_map_index(s.drop_last(), i);
    }
}

proof fn lemma_aug_map_update(s: Seq<AugEntry>, j: int, x: AugEntry)
    requires
        0 <= j < s.len(),
        x.address@ == s[j].address@,
        forall|a: int, b: int|
            0 <= a < s.len() && 0 <= b < s.len() && a != b ==> (#[trigger] s[a]).address@
                != (#[trigger] s[b]).address@,
    ensures
        aug_map_of(s.update(j, x)) =~= aug_map_of(s).insert(x.address@, views_of(x.slots@)),
    decreases s.len(),
{
    if j == s.len() - 1 {
        assert(s.update(j, x).drop_last() =~= s.drop_last());
        assert(s.update(j, x).last() == x);
    } else {
        assert(s.update(j, x).drop_last() =~= s.drop_last().update(j, x));
        assert(s.update(j, x).last() == s.last());
        lemma_aug_map_update(s.drop_last(), j, x);
        assert(s.last().address@ != x.address@);
    }
}

impl SlotAugmentations {
    /// Well-formedness: addresses distinct, and each address's slots
    /// pairwise distinct.
    pub open spec fn wf(self) -> bool {
        &&& forall|a: int, b: int|
            0 <= a < self.entries_seq().len() && 0 <= b < self.entries_seq().len() && a != b
                ==> (#[trigger] self.entries_seq()[a]).address@
                != (#[trigger] self.entries_seq()[b]).address@
        &&& forall|i: int|
            0 <= i < self.entries_seq().len() ==> slots_distinct(
                (#[trigger] self.entries_seq()[i]).slots@,
            )
    }

    pub closed spec fn entries_seq(self) -> Seq<AugEntry> {
        self.entries@
    }

    /// Distinctness of addresses, phrased over the raw entry list.
    proof fn lemma_distinct(self)
        requires
            self.wf(),
        ensures
            forall|a: int, b: int|
                0 <= a < self.entries@.len() && 0 <= b < self.entries@.len() && a != b
                    ==> (#[trigger] self.entries@[a]).address@
                    != (#[trigger] self.entries@[b]).address@,
    {
        assert forall|a: int, b: int|
            0 <= a < self.entries@.len() && 0 <= b < self.entries@.len() && a
                != b implies (#[trigger] self.entries@[a]).address@
            != (#[trigger] self.entries@[b]).address@ by {
            assert(self.entries_seq()[a] == self.entries@[a]);
            assert(self.entries_seq()[b] == self.entries@[b]);
        }
    }

    pub fn new() -> (r: Self)
        ensures
            r.wf(),
            r@ == Map::<Seq<u8>, Seq<Seq<u8>>>::empty(),
    {
        SlotAugmentations { entries: Vec::new() }
    }

    /// The extra slots recorded for an address; empty when none are.
    #[verifier::loop_isolation(false)]
    pub fn slots_for(&self, address: &AddressBytes) -> (r: Vec<Vec<u8>>)
        requires
            self.wf(),
        ensures
            views_of(r@) == if self@.contains_key(address@) {
                self@[address@]
            } else {
                Seq::<Seq<u8>>::empty()
            },
    {
        let n = self.entries.len();
        let mut i: usize = 0;
        while i < n
            invariant
                i <= n,
                forall|j: int| 0 <= j < i ==> (#[trigger] self.entries_seq()[j]).address@ != address@,
            decreases n - i,
        {
            if self.entries[i].address.eq_address(address) {
                proof {
                    self.lemma_distinct();
                    lemma_aug_map_index(self.entries@, i as int);
                }
                let src = &self.entries[i].slots;
                let mut out: Vec<Vec<u8>> = Vec::new();
                let m = src.len();
                let mut t: usize = 0;
                while t < m
                    invariant
                        t <= m,
                        m == src@.len(),
                        out@.len() == t,
                        forall|u: int| 0 <= u < t ==> (#[trigger] out@[u])@ == src@[u]@,
                    decreases m - t,
                {
                    out.push(copy_bytes(&src[t]));
                    t = t + 1;
                }
                proof {
                    assert(views_of(out@) =~= views_of(src@));
                }
                return out;
            }
            i = i + 1;
        }
        proof {
            lemma_aug_map_contains(self.entries@, address@);
            if self@.contains_key(address@) {
                let t = choose|t: int|
                    0 <= t < self.entries@.len() && self.entries@[t].address@ == address@;
                assert(self.entries_seq()[t] == self.entries@[t]);
            }
            assert(views_of(Seq::<Vec<u8>>::empty()) =~= Seq::<Seq<u8>>::empty());
        }
        Vec::new()
    }

    /// Records one extra slot for an address; a slot already recorded
    /// changes nothing, so the list only grows and never repeats.
    #[verifier::loop_isolation(false)]
    pub fn add_slot(&mut self, address: &AddressBytes, slot: Vec<u8>)
        requires
            old(self).wf(),
        ensures
            final(self).wf(),
            final(self)@ == aug_insert(old(self)@, address@, slot@),
    {
        proof {
            lemma_aug_map_contains(self.entries@, address@);
        }
        let n = self.entries.len();
        let mut i: usize = 0;
        while i < n
            invariant
                i <= n,
                self.entries@ == old(self).entries@,
                forall|j: int| 0 <= j < i ==> (#[trigger] old(self).entries_seq()[j]).address@ != address@,
            decreases n - i,
        {
            if self.entries[i].address.eq_address(address) {
                proof {
                    old(self).lemma_distinct();
                    lemma_aug_map_index(self.entries@, i as int);
                }
                // Already recorded?
                let cur = &self.entries[i].slots;
                let m = cur.len();
                let mut t: usize = 0;
                while t < m
                    invariant
                        t <= m,
                        self.entries@ == old(self).entries@,
                        i < self.entries@.len(),
                        m == self.entries_seq()[i as int].slots@.len(),
                        forall|u: int|
                            0 <= u < t ==> (#[trigger] old(self).entries_seq()[i as int].slots@[u])@
                                != slot@,
                    decreases m - t,
                {
                    if bytes_eq(&self.entries[i].slots[t], &slot) {
                        proof {
                            assert(views_of(old(self).entries_seq()[i as int].slots@)[t as int]
                                == slot@);
                            assert(old(self)@[address@].contains(slot@));
                            assert(aug_insert(old(self)@, address@, slot@) =~= old(self)@);
                        }
                        return ;
                    }
                    t = t + 1;
                }
                proof {
                    assert forall|u: int|
                        0 <= u < views_of(old(self).entries_seq()[i as int].slots@).len() implies (
                    #[trigger] views_of(old(self).entries_seq()[i as int].slots@)[u]) != slot@ by {
                        assert(views_of(old(self).entries_seq()[i as int].slots@)[u]
                            == old(self).entries_seq()[i as int].slots@[u]@);
                    }
                    assert(old(self).entries_seq()[i as int] == self.entries@[i as int]);
                    assert(old(self)@[address@] == views_of(
                        old(self).entries_seq()[i as int].slots@,
                    ));
                    assert(!old(self)@[address@].contains(slot@));
                }
                // Append the new slot.
                let entry = &self.entries[i];
                let mut slots2: Vec<Vec<u8>> = Vec::new();
                let mut t2: usize = 0;
                while t2 < m
                    invariant
                        t2 <= m,
                        self.entries@ == old(self).entries@,
                        i < self.entries@.len(),
                        m == self.entries_seq()[i as int].slots@.len(),
                        slots2@.len() == t2,
                        forall|u: int|
                            0 <= u < t2 ==> (#[trigger] slots2@[u])@
                                == old(self).entries_seq()[i as int].slots@[u]@,
                    decreases m - t2,
                {
                    slots2.push(copy_bytes(&self.entries[i].slots[t2]));
                    t2 = t2 + 1;
                }
                slots2.push(slot);
                let item = AugEntry { address: address.duplicate(), slots: slots2 };
                proof {
                    assert(views_of(item.slots@) =~= views_of(
                        old(self).entries_seq()[i as int].slots@,
                    ).push(slot@));
                    assert(slots_distinct(item.slots@)) by {
                        assert forall|a: int, b: int|
                            0 <= a < b < item.slots@.len() implies (#[trigger] item.slots@[a])@
                            != (#[trigger] item.slots@[b])@ by {
                            if b == item.slots@.len() - 1 {
                                assert(item.slots@[a]@
                                    == old(self).entries_seq()[i as int].slots@[a]@);
                            } else {
                                assert(item.slots@[a]@
                                    == old(self).entries_seq()[i as int].slots@[a]@);
                                assert(item.slots@[b]@
                                    == old(self).entries_seq()[i as int].slots@[b]@);
                                assert(slots_distinct(old(self).entries_seq()[i as int].slots@));
                            }
                        }
                    }
                    lemma_aug_map_update(self.entries@, i as int, item);
                }
                self.entries[i] = item;
                proof {
                    assert forall|a: int, b: int|
                        0 <= a < self.entries_seq().len() && 0 <= b < self.entries_seq().len() && a
                            != b implies (#[trigger] self.entries_seq()[a]).address@
                        != (#[trigger] self.entries_seq()[b]).address@ by {
                        assert(self.entries_seq()[a] == if a == i as int {
                            item
                        } else {
                            old(self).entries_seq()[a]
                        });
                        assert(self.entries_seq()[b] == if b == i as int {
                            item
                        } else {
                            old(self).entries_seq()[b]
                        });
                    }
                    assert forall|j: int| 0 <= j < self.entries_seq().len() implies slots_distinct(
                        (#[trigger] self.entries_seq()[j]).slots@,
                    ) by {
                        assert(self.entries_seq()[j] == if j == i as int {
                            item
                        } else {
                            old(self).entries_seq()[j]
                        });
                    }
                    assert(final(self)@ =~= aug_insert(old(self)@, address@, slot@));
                }
                return ;
            }
            i = i + 1;
        }
        // First slot for this address.
        proof {
            if old(self)@.contains_key(address@) {
                let t = choose|t: int|
                    0 <= t < self.entries@.len() && self.entries@[t].address@ == address@;
                assert(old(self).entries_seq()[t] == self.entries@[t]);
            }
            assert(!old(self)@.contains_key(address@));
        }
        let mut slots2: Vec<Vec<u8>> = Vec::new();
        slots2.push(slot);
        let item = AugEntry { address: address.duplicate(), slots: slots2 };
        let ghost pre = self.entries@;
        self.entries.push(item);
        proof {
            assert(self.entries@.drop_last() =~= pre);
            assert(views_of(item.slots@) =~= seq![slot@]);
            assert forall|a: int, b: int|
                0 <= a < self.entries_seq().len() && 0 <= b < self.entries_seq().len() && a
                    != b implies (#[trigger] self.entries_seq()[a]).address@
                != (#[trigger] self.entries_seq()[b]).address@ by {
                if a < pre.len() && b < pre.len() {
                    assert(self.entries_seq()[a] == old(self).entries_seq()[a]);
                    assert(self.entries_seq()[b] == old(self).entries_seq()[b]);
                } else if a == pre.len() as int && b < pre.len() {
                    assert(self.entries_seq()[b] == old(self).entries_seq()[b]);
                    assert(old(self).entries_seq()[b].address@ != address@);
                } else if b == pre.len() as int && a < pre.len() {
                    assert(self.entries_seq()[a] == old(self).entries_seq()[a]);
                    assert(old(self).entries_seq()[a].address@ != address@);
                }
            }
            assert forall|j: int| 0 <= j < self.entries_seq().len() implies slots_distinct(
                (#[trigger] self.entries_seq()[j]).slots@,
            ) by {
                if j < pre.len() {
                    assert(self.entries_seq()[j] == old(self).entries_seq()[j]);
                } else {
                    assert(self.entries_seq()[j] == item);
                }
            }
            assert(final(self)@ =~= aug_insert(old(self)@, address@, slot@));
        }
    }
}

/// No slot appears twice in a list.
pub open spec fn slots_distinct(s: Seq<Vec<u8>>) -> bool {
    forall|a: int, b: int| 0 <= a < b < s.len() ==> (#[trigger] s[a])@ != (#[trigger] s[b])@
}

/// Brute-forces a 32-byte value whose Keccak-256 hash starts with the
/// given nibbles, sampling uniformly at random up to `max_attempts` times.
/// An empty target is met by the very first sample.
#[verifier::loop_isolation(false)]
pub fn grind(target: &NibblePath, max_attempts: u64) -> (r: Result<Vec<u8>, RetryError>)
    requires
        target.wf(),
    ensures
        match r {
            Ok(c) => c@.len() == 32 && nibbles_of_bytes(keccak_of(c@)).take(
                target@.len() as int,
            ) == target@,
            Err(e) => e == RetryError::GrindExhausted,
        },
        target@.len() == 0 && max_attempts >= 1 ==> r is Ok,
{
    let want = target.len();
    let mut attempt: u64 = 0;
    while attempt < max_attempts
        invariant
            want == target@.len() <= 64,
            target@.len() == 0 && max_attempts >= 1 ==> attempt == 0,
        decreases max_attempts - attempt,
    {
        let candidate = sample_bytes32();
        let mut cand: Vec<u8> = Vec::new();
        let mut i: usize = 0;
        while i < 32
            invariant
                i <= 32,
                cand@ == candidate@.take(i as int),
            decreases 32 - i,
        {
            cand.push(candidate[i]);
            proof {
                assert(candidate@.take(i as int).push(candidate@[i as int]) =~= candidate@.take(
                    i + 1 as int,
                ));
            }
            i = i + 1;
        }
        proof {
            assert(candidate@.take(32) =~= candidate@);
        }
        let digest = keccak(cand.as_slice());
        let hashed_path = NibblePath::from_bytes(&digest);
        let prefix = hashed_path.prefix(want);
        if prefix.eq_path(target) {
            return Ok(cand);
        }
        proof {
            if target@.len() == 0 {
                assert(prefix@ =~= target@);
            }
        }
        attempt = attempt + 1;
    }
    Err(RetryError::GrindExhausted)
}

/// Handles the recoverable generator failure: computes the nibble path at
/// which the missing sibling must sit, grinds a fresh 32-byte slot whose
/// hashed form lands there, and records it for the offending address. On
/// success the returned slot is the one recorded.
pub fn augment_for_missing_sibling(
    aug: &mut SlotAugmentations,
    nibble: u8,
    address: &AddressBytes,
    slot: &Vec<u8>,
    depth: u8,
    max_attempts: u64,
) -> (r: Result<Vec<u8>, RetryError>)
    requires
        old(aug).wf(),
        nibble < 16,
        1 <= depth <= 64,
        slot@.len() == 32,
    ensures
        final(aug).wf(),
        match r {
            Ok(s) => {
                &&& s@.len() == 32
                &&& nibbles_of_bytes(keccak_of(s@)).take(65 - depth as int) == sibling_target(
                    nibble,
                    slot@,
                    depth as int,
                )
                &&& final(aug)@ == aug_insert(old(aug)@, address@, s@)
            },
            Err(e) => e == RetryError::GrindExhausted && final(aug)@ == old(aug)@,
        },
{
    let hashed = keccak(slot.as_slice());
    let hashed_path = NibblePath::from_bytes(&hashed);
    let mut target = hashed_path.prefix(64 - (depth as usize));
    target.push_back(nibble);
    proof {
        assert(target@ == sibling_target(nibble, slot@, depth as int));
        assert(target@.len() == 65 - depth as int);
    }
    match grind(&target, max_attempts) {
        Ok(candidate) => {
            let recorded = copy_bytes(&candidate);
            aug.add_slot(address, candidate);
            Ok(recorded)
        },
        Err(e) => Err(e),
    }
}

/// The retry decision for one generator outcome: success stops the loop;
/// the missing-sibling failure grows the slot set and retries; anything
/// else is fatal. The boolean says whether to run another attempt.
pub fn retry_step(
    aug: &mut SlotAugmentations,
    outcome: &GeneratorOutcome,
    max_attempts: u64,
) -> (r: Result<bool, RetryError>)
    requires
        old(aug).wf(),
        match outcome {
            GeneratorOutcome::MissingSibling { nibble, slot, depth, .. } => *nibble < 16 && 1
                <= *depth <= 64 && slot@.len() == 32,
            _ => true,
        },
    ensures
        final(aug).wf(),
        match outcome {
            GeneratorOutcome::Success { .. } => r == Ok::<bool, RetryError>(false) && final(aug)@
                == old(aug)@,
            GeneratorOutcome::OtherFailure => r == Err::<bool, RetryError>(
                RetryError::GeneratorFailed,
            ) && final(aug)@ == old(aug)@,
            GeneratorOutcome::MissingSibling { nibble, address, slot, depth } => match r {
                Ok(again) => again && (exists|s: Seq<u8>|
                    s.len() == 32 && nibbles_of_bytes(keccak_of(s)).take(65 - *depth as int)
                        == sibling_target(*nibble, slot@, *depth as int) && final(aug)@
                        == aug_insert(old(aug)@, address@, s)),
                Err(e) => e == RetryError::GrindExhausted && final(aug)@ == old(aug)@,
            },
        },
{
    match outcome {
        GeneratorOutcome::Success { .. } => Ok(false),
        GeneratorOutcome::OtherFailure => Err(RetryError::GeneratorFailed),
        GeneratorOutcome::MissingSibling { nibble, address, slot, depth } => {
            match augment_for_missing_sibling(aug, *nibble, address, slot, *depth, max_attempts) {
                Ok(s) => {
                    proof {
                        assert(s@.len() == 32 && nibbles_of_bytes(keccak_of(s@)).take(
                            65 - *depth as int,
                        ) == sibling_target(*nibble, slot@, *depth as int) && final(aug)@
                            == aug_insert(old(aug)@, address@, s@));
                    }
                    Ok(true)
                },
                Err(e) => Err(e),
            }
        },
    }
}

} // verus!
