//! Touched state per block: merging the per-transaction execution-trace
//! fragments into one per-block account map, ordered by address.

use vstd::prelude::*;

use crate::bytes::bytes_eq;
use crate::bytes::copy_bytes;

verus! {

/// Strict lexicographic order on byte strings.
pub open spec fn lex_lt(a: Seq<u8>, b: Seq<u8>) -> bool
    decreases a.len(),
{
    if b.len() == 0 {
        false
    } else if a.len() == 0 {
        true
    } else if a[0] < b[0] {
        true
    } else if a[0] > b[0] {
        false
    } else {
        lex_lt(a.drop_first(), b.drop_first())
    }
}

/// Strict lexicographic order is total: two unordered strings are equal.
pub proof fn lemma_lex_total(a: Seq<u8>, b: Seq<u8>)
    requires
        !lex_lt(a, b),
        !lex_lt(b, a),
    ensures
        a == b,
    decreases a.len(),
{
    if a.len() == 0 || b.len() == 0 {
        assert(a =~= b);
    } else {
        lemma_lex_total(a.drop_first(), b.drop_first());
        assert(a =~= seq![a[0]] + a.drop_first());
        assert(b =~= seq![b[0]] + b.drop_first());
    }
}

/// A 20-byte account address.
pub struct AddressBytes {
    bytes: Vec<u8>,
}

impl View for AddressBytes {
    type V = Seq<u8>;

    closed spec fn view(&self) -> Seq<u8> {
        self.bytes@
    }
}

impl AddressBytes {
    pub open spec fn wf(self) -> bool {
        self@.len() == 20
    }

    pub fn from_bytes(bytes: Vec<u8>) -> (r: Self)
        requires
            bytes@.len() == 20,
        ensures
            r.wf(),
            r@ == bytes@,
    {
        AddressBytes { bytes }
    }

    pub fn duplicate(&self) -> (r: Self)
        ensures
            r@ == self@,
    {
        AddressBytes { bytes: copy_bytes(&self.bytes) }
    }

    pub fn as_bytes(&self) -> (r: &Vec<u8>)
        ensures
            r@ == self@,
    {
        &self.bytes
    }

    pub fn eq_address(&self, other: &AddressBytes) -> (r: bool)
        ensures
            r == (self@ == other@),
    {
        bytes_eq(&self.bytes, &other.bytes)
    }

    /// Whether this address sorts strictly before `other`.
    pub fn lt(&self, other: &AddressBytes) -> (r: bool)
        ensures
            r == lex_lt(self@, other@),
    {
        let n = if self.bytes.len() < other.bytes.len() {
            self.bytes.len()
        } else {
            other.bytes.len()
        };
        proof {
            assert(self@.skip(0) =~= self@);
            assert(other@.skip(0) =~= other@);
        }
        let mut i: usize = 0;
        while i < n
            invariant
                i <= n,
                n == if self@.len() < other@.len() {
                    self@.len()
                } else {
                    other@.len()
                },
                forall|j: int| 0 <= j < i ==> self@[j] == other@[j],
                lex_lt(self@, other@) == lex_lt(self@.skip(i as int), other@.skip(i as int)),
            decreases n - i,
        {
            let x = self.bytes[i];
            let y = other.bytes[i];
            if x < y {
                proof {
                    assert(self@.skip(i as int)[0] == x && other@.skip(i as int)[0] == y);
                }
                return true;
            }
            if x > y {
                proof {
                    assert(self@.skip(i as int)[0] == x && other@.skip(i as int)[0] == y);
                }
                return false;
            }
            proof {
                assert(self@.skip(i as int)[0] == other@.skip(i as int)[0]);
                assert(self@.skip(i as int).drop_first() =~= self@.skip(i + 1));
                assert(other@.skip(i as int).drop_first() =~= other@.skip(i + 1));
            }
            i = i + 1;
        }
        let r = self.bytes.len() < other.bytes.len();
        proof {
            assert(self@.skip(i as int).len() == self@.len() - i);
            assert(other@.skip(i as int).len() == other@.len() - i);
        }
        r
    }
}

/// One touched storage slot: a 32-byte key and its 32-byte value.
pub struct SlotEntry {
    pub key: Vec<u8>,
    pub value: Vec<u8>,
}

impl SlotEntry {
    pub open spec fn wf(self) -> bool {
        self.key@.len() == 32 && self.value@.len() == 32
    }

    pub fn duplicate(&self) -> (r: Self)
        ensures
            r.key@ == self.key@,
            r.value@ == self.value@,
    {
        SlotEntry { key: copy_bytes(&self.key), value: copy_bytes(&self.value) }
    }
}

/// The slot list a fragment or account reports, as a map; a later entry
/// overrides an earlier one at the same key.
pub open spec fn slots_map(s: Seq<SlotEntry>) -> Map<Seq<u8>, Seq<u8>>
    decreases s.len(),
{
    if s.len() == 0 {
        Map::empty()
    } else {
        slots_map(s.drop_last()).insert(s.last().key@, s.last().value@)
    }
}

/// What one execution-trace fragment reports of one account, and what a
/// merged per-block account holds: code as reported (a hex string), and the
/// touched slots, absent when no storage was ever reported.
pub struct AccountState {
    pub code: Option<Vec<u8>>,
    pub storage: Option<Vec<SlotEntry>>,
}

/// Spec form of an account: reported code bytes and the slot map.
pub struct AccountView {
    pub code: Option<Seq<u8>>,
    pub storage: Option<Map<Seq<u8>, Seq<u8>>>,
}

impl View for AccountState {
    type V = AccountView;

    open spec fn view(&self) -> AccountView {
        AccountView {
            code: match self.code {
                Some(c) => Some(c@),
                None => None,
            },
            storage: match self.storage {
                Some(s) => Some(slots_map(s@)),
                None => None,
            },
        }
    }
}

/// The merge of a later fragment into an account already seen: code as
/// first reported, storage the union with the later values overriding, and
/// present only when the union is non-empty.
pub open spec fn merged_account(seen: AccountView, frag: AccountView) -> AccountView {
    let u = (match seen.storage {
        Some(m) => m,
        None => Map::empty(),
    }).union_prefer_right(
        match frag.storage {
            Some(m) => m,
            None => Map::empty(),
        },
    );
    AccountView {
        code: seen.code,
        storage: if u == Map::<Seq<u8>, Seq<u8>>::empty() {
            None
        } else {
            Some(u)
        },
    }
}

/// Merging one fragment into the per-block map.
pub open spec fn merge_step(
    m: Map<Seq<u8>, AccountView>,
    addr: Seq<u8>,
    frag: AccountView,
) -> Map<Seq<u8>, AccountView> {
    if m.contains_key(addr) {
        m.insert(addr, merged_account(m[addr], frag))
    } else {
        m.insert(addr, frag)
    }
}

/// One account fragment as a trace reports it, with its address.
pub struct TraceAccount {
    pub address: AddressBytes,
    pub account: AccountState,
}

/// Merging a list of fragments in order.
pub open spec fn merge_all(
    m: Map<Seq<u8>, AccountView>,
    frags: Seq<TraceAccount>,
) -> Map<Seq<u8>, AccountView>
    decreases frags.len(),
{
    if frags.len() == 0 {
        m
    } else {
        merge_step(merge_all(m, frags.drop_last()), frags.last().address@, frags.last().account@)
    }
}

/// The merged per-block accounts, ordered by address.
pub struct AccountMap {
    entries: Vec<TraceAccount>,
}

impl View for AccountMap {
    type V = Map<Seq<u8>, AccountView>;

    closed spec fn view(&self) -> Map<Seq<u8>, AccountView> {
        account_map_of(self.entries@)
    }
}

/// The map a sorted entry list stands for.
pub open spec fn account_map_of(s: Seq<TraceAccount>) -> Map<Seq<u8>, AccountView>
    decreases s.len(),
{
    if s.len() == 0 {
        Map::empty()
    } else {
        account_map_of(s.drop_last()).insert(s.last().address@, s.last().account@)
    }
}

proof fn lemma_account_map_contains(s: Seq<TraceAccount>, p: Seq<u8>)
    ensures
        account_map_of(s).contains_key(p) <==> exists|i: int|
            0 <= i < s.len() && s[i].address@ == p,
    decreases s.len(),
{
    if s.len() > 0 {
        lemma_account_map_contains(s.drop_last(), p);
        if s.last().address@ == p {
            assert(s[s.len() - 1].address@ == p);
        } else {
            if account_map_of(s).contains_key(p) {
                let i = choose|i: int|
                    0 <= i < s.drop_last().len() && s.drop_last()[i].address@ == p;
                assert(s[i].address@ == p);
            }
            if exists|i: int| 0 <= i < s.len() && s[i].address@ == p {
                let i = choose|i: int| 0 <= i < s.len() && s[i].address@ == p;
                assert(s.drop_last()[i].address@ == p);
            }
        }
    }
}

proof fn lemma_account_map_index(s: Seq<TraceAccount>, i: int)
    requires
        0 <= i < s.len(),
        forall|a: int, b: int|
            0 <= a < s.len() && 0 <= b < s.len() && a != b ==> s[a].address@ != s[b].address@,
    ensures
        account_map_of(s).contains_key(s[i].address@),
        account_map_of(s)[s[i].address@] == s[i].account@,
    decreases s.len(),
{
    lemma_account_map_contains(s, s[i].address@);
    if i < s.len() - 1 {
        assert(s.last().address@ != s[i].address@);
        assert(s.drop_last()[i] == s[i]);
        lemma_account_map_index(s.drop_last(), i);
    }
}

impl AccountMap {
    /// Well-formedness: entries strictly ascending by address (so addresses
    /// are distinct), each address 20 bytes.
    pub open spec fn wf(self) -> bool {
        &&& forall|a: int, b: int|
            0 <= a < b < self.entries_seq().len() ==> lex_lt(
                self.entries_seq()[a].address@,
                self.entries_seq()[b].address@,
            )
        &&& forall|a: int|
            0 <= a < self.entries_seq().len() ==> (#[trigger] self.entries_seq()[a]).address.wf()
    }

    pub closed spec fn entries_seq(self) -> Seq<TraceAccount> {
        self.entries@
    }

    /// Distinct entries carry distinct addresses.
    proof fn lemma_distinct(self)
        requires
            self.wf(),
        ensures
            forall|a: int, b: int|
                0 <= a < self.entries_seq().len() && 0 <= b < self.entries_seq().len() && a != b
                    ==> self.entries_seq()[a].address@ != self.entries_seq()[b].address@,
    {
        assert forall|a: int, b: int|
            0 <= a < self.entries_seq().len() && 0 <= b < self.entries_seq().len() && a
                != b implies self.entries_seq()[a].address@ != self.entries_seq()[b].address@ by {
            if a < b {
                assert(lex_lt(self.entries_seq()[a].address@, self.entries_seq()[b].address@));
                if self.entries_seq()[a].address@ == self.entries_seq()[b].address@ {
                    lemma_lex_irrefl(self.entries_seq()[a].address@);
                }
            } else {
                assert(lex_lt(self.entries_seq()[b].address@, self.entries_seq()[a].address@));
                if self.entries_seq()[a].address@ == self.entries_seq()[b].address@ {
                    lemma_lex_irrefl(self.entries_seq()[a].address@);
                }
            }
        }
    }

    /// Every entry is in the view map, and every key of the view map is an
    /// entry.
    pub proof fn lemma_entries_view(self)
        requires
            self.wf(),
        ensures
            forall|i: int|
                0 <= i < self.entries_seq().len() ==> self@.contains_key(
                    (#[trigger] self.entries_seq()[i]).address@,
                ) && self@[self.entries_seq()[i].address@] == self.entries_seq()[i].account@,
            forall|p: Seq<u8>|
                self@.contains_key(p) ==> exists|i: int|
                    0 <= i < self.entries_seq().len() && self.entries_seq()[i].address@ == p,
    {
        self.lemma_distinct();
        assert forall|i: int| 0 <= i < self.entries_seq().len() implies self@.contains_key(
            (#[trigger] self.entries_seq()[i]).address@,
        ) && self@[self.entries_seq()[i].address@] == self.entries_seq()[i].account@ by {
            lemma_account_map_index(self.entries@, i);
        }
        assert forall|p: Seq<u8>| self@.contains_key(p) implies exists|i: int|
            0 <= i < self.entries_seq().len() && self.entries_seq()[i].address@ == p by {
            lemma_account_map_contains(self.entries@, p);
        }
    }

    pub fn new() -> (r: Self)
        ensures
            r.wf(),
            r@ == Map::<Seq<u8>, AccountView>::empty(),
    {
        AccountMap { entries: Vec::new() }
    }

    pub fn len(&self) -> (n: usize)
        ensures
            n == self.entries_seq().len(),
    {
        self.entries.len()
    }

    pub fn address_at(&self, i: usize) -> (r: &AddressBytes)
        requires
            0 <= i < self.entries_seq().len(),
        ensures
            r@ == self.entries_seq()[i as int].address@,
    {
        &self.entries[i].address
    }

    pub fn account_at(&self, i: usize) -> (r: &AccountState)
        requires
            0 <= i < self.entries_seq().len(),
        ensures
            r@ == self.entries_seq()[i as int].account@,
    {
        &self.entries[i].account
    }
}

/// Nothing sorts strictly before itself.
pub proof fn lemma_lex_irrefl(a: Seq<u8>)
    ensures
        !lex_lt(a, a),
    decreases a.len(),
{
    if a.len() > 0 {
        lemma_lex_irrefl(a.drop_first());
    }
}

/// Concatenating slot lists unions their maps, the later list preferred.
proof fn lemma_slots_concat(a: Seq<SlotEntry>, b: Seq<SlotEntry>)
    ensures
        slots_map(a + b) =~= slots_map(a).union_prefer_right(slots_map(b)),
    decreases b.len(),
{
    if b.len() == 0 {
        assert(a + b =~= a);
    } else {
        assert((a + b).drop_last() =~= a + b.drop_last());
        assert((a + b).last() == b.last());
        lemma_slots_concat(a, b.drop_last());
    }
}

/// A slot list's map is empty exactly when the list is.
proof fn lemma_slots_empty(s: Seq<SlotEntry>)
    ensures
        (slots_map(s) == Map::<Seq<u8>, Seq<u8>>::empty()) <==> s.len() == 0,
{
    if s.len() == 0 {
    } else {
        assert(slots_map(s).contains_key(s.last().key@));
    }
}

proof fn lemma_account_map_insert_at(s: Seq<TraceAccount>, j: int, x: TraceAccount)
    requires
        0 <= j <= s.len(),
        forall|i: int| 0 <= i < s.len() ==> s[i].address@ != x.address@,
    ensures
        account_map_of(s.insert(j, x)) =~= account_map_of(s).insert(x.address@, x.account@),
    decreases s.len(),
{
    if j == s.len() {
        assert(s.insert(j, x).drop_last() =~= s);
        assert(s.insert(j, x).last() == x);
    } else {
        assert(s.insert(j, x).drop_last() =~= s.drop_last().insert(j, x));
        assert(s.insert(j, x).last() == s.last());
        lemma_account_map_insert_at(s.drop_last(), j, x);
        assert(s.last().address@ != x.address@);
    }
}

proof fn lemma_account_map_update(s: Seq<TraceAccount>, j: int, x: TraceAccount)
    requires
        0 <= j < s.len(),
        x.address@ == s[j].address@,
        forall|a: int, b: int|
            0 <= a < s.len() && 0 <= b < s.len() && a != b ==> s[a].address@ != s[b].address@,
    ensures
        account_map_of(s.update(j, x)) =~= account_map_of(s).insert(x.address@, x.account@),
    decreases s.len(),
{
    if j == s.len() - 1 {
        assert(s.update(j, x).drop_last() =~= s.drop_last());
        assert(s.update(j, x).last() == x);
    } else {
        assert(s.update(j, x).drop_last() =~= s.drop_last().update(j, x));
        assert(s.update(j, x).last() == s.last());
        lemma_account_map_update(s.drop_last(), j, x);
        assert(s.last().address@ != x.address@);
    }
}

/// A fresh copy of an account's reported pieces.
fn duplicate_account(a: &AccountState) -> (r: AccountState)
    ensures
        r@ == a@,
{
    let code = match &a.code {
        Some(c) => Some(copy_bytes(c)),
        None => None,
    };
    let storage = match &a.storage {
        Some(s) => Some(copy_slots(s)),
        None => None,
    };
    AccountState { code, storage }
}

/// A fresh copy of a slot list.
fn copy_slots(s: &Vec<SlotEntry>) -> (r: Vec<SlotEntry>)
    ensures
        r@.len() == s@.len(),
        slots_map(r@) == slots_map(s@),
        forall|i: int|
            0 <= i < s@.len() ==> (#[trigger] r@[i]).key@ == s@[i].key@ && r@[i].value@
                == s@[i].value@,
{
    let mut out: Vec<SlotEntry> = Vec::new();
    let n = s.len();
    let mut i: usize = 0;
    while i < n
        invariant
            i <= n,
            n == s@.len(),
            out@.len() == i,
            forall|j: int|
                0 <= j < i ==> (#[trigger] out@[j]).key@ == s@[j].key@ && out@[j].value@
                    == s@[j].value@,
        decreases n - i,
    {
        out.push(s[i].duplicate());
        i = i + 1;
    }
    proof {
        lemma_slots_map_congruent(out@, s@);
    }
    out
}

/// Slot lists equal entry by entry stand for the same map.
proof fn lemma_slots_map_congruent(a: Seq<SlotEntry>, b: Seq<SlotEntry>)
    requires
        a.len() == b.len(),
        forall|i: int|
            0 <= i < a.len() ==> (#[trigger] a[i]).key@ == b[i].key@ && a[i].value@ == b[i].value@,
    ensures
        slots_map(a) =~= slots_map(b),
    decreases a.len(),
{
    if a.len() > 0 {
        assert(a[a.len() - 1].key@ == b[b.len() - 1].key@);
        lemma_slots_map_congruent(a.drop_last(), b.drop_last());
    }
}

/// Merges the per-transaction trace fragments, in order, into one
/// per-block account map ordered by address: a first fragment enters as
/// reported; a later fragment for the same address unions its slots over
/// the earlier ones, keeps the code first reported, and leaves storage
/// present only when the union is non-empty.
#[verifier::loop_isolation(false)]
pub fn collect_touched(frags: &Vec<TraceAccount>) -> (r: AccountMap)
    requires
        forall|i: int| 0 <= i < frags@.len() ==> (#[trigger] frags@[i]).address.wf(),
    ensures
        r.wf(),
        r@ == merge_all(Map::<Seq<u8>, AccountView>::empty(), frags@),
{
    let mut out = AccountMap::new();
    let n = frags.len();
    let mut k: usize = 0;
    while k < n
        invariant
            out.wf(),
            k <= n,
            out@ == merge_all(Map::<Seq<u8>, AccountView>::empty(), frags@.take(k as int)),
        decreases n - k,
    {
        proof {
            assert(frags@.take(k + 1 as int).drop_last() =~= frags@.take(k as int));
            assert(frags@.take(k + 1 as int).last() == frags@[k as int]);
        }
        out.merge_fragment(&frags[k]);
        k = k + 1;
    }
    proof {
        assert(frags@.take(n as int) =~= frags@);
    }
    out
}

impl AccountMap {
    /// Merges one trace fragment into the map.
    #[verifier::loop_isolation(false)]
    pub fn merge_fragment(&mut self, frag: &TraceAccount)
        requires
            old(self).wf(),
            frag.address.wf(),
        ensures
            final(self).wf(),
            final(self)@ == merge_step(old(self)@, frag.address@, frag.account@),
    {
        proof {
            self.lemma_entries_view();
            self.lemma_distinct();
        }
        let n = self.entries.len();
        let mut j: usize = 0;
        while j < n && self.entries[j].address.lt(&frag.address)
            invariant
                j <= n,
                forall|t: int| 0 <= t < j ==> lex_lt(self.entries_seq()[t].address@, frag.address@),
            decreases n - j,
        {
            j = j + 1;
        }
        if j < n && self.entries[j].address.eq_address(&frag.address) {
            // A later fragment for an address already seen: union the slots.
            let ghost seen = self.entries_seq()[j as int].account@;
            let old_code = match &self.entries[j].account.code {
                Some(c) => Some(copy_bytes(c)),
                None => None,
            };
            let mut new_store: Vec<SlotEntry> = match &self.entries[j].account.storage {
                Some(s) => copy_slots(s),
                None => Vec::new(),
            };
            let ghost old_slots = slots_map(new_store@);
            let ghost pre = new_store@;
            match &frag.account.storage {
                Some(fs) => {
                    let m = fs.len();
                    let mut t: usize = 0;
                    while t < m
                        invariant
                            t <= m,
                            m == fs@.len(),
                            new_store@.len() == pre.len() + t,
                            forall|k: int| 0 <= k < pre.len() ==> new_store@[k] == pre[k],
                            forall|k: int|
                                pre.len() <= k < new_store@.len() ==> (#[trigger] new_store@[k]).key@
                                    == fs@[k - pre.len()].key@ && new_store@[k].value@ == fs@[k
                                    - pre.len()].value@,
                        decreases m - t,
                    {
                        new_store.push(fs[t].duplicate());
                        t = t + 1;
                    }
                    proof {
                        lemma_slots_map_congruent(new_store@, pre + fs@);
                        lemma_slots_concat(pre, fs@);
                    }
                },
                None => {
                    proof {
                        assert(pre + Seq::<SlotEntry>::empty() =~= pre);
                        lemma_slots_concat(pre, Seq::<SlotEntry>::empty());
                    }
                },
            }
            let ghost union_map = slots_map(new_store@);
            let storage = if new_store.len() == 0 {
                None
            } else {
                Some(new_store)
            };
            proof {
                lemma_slots_empty(new_store@);
            }
            let merged = TraceAccount {
                address: frag.address.duplicate(),
                account: AccountState { code: old_code, storage },
            };
            proof {
                assert(merged.account@ == merged_account(seen, frag.account@));
                lemma_account_map_update(self.entries@, j as int, merged);
                assert(old(self)@.contains_key(frag.address@));
                assert(old(self)@[frag.address@] == seen);
            }
            self.entries[j] = merged;
            proof {
                assert forall|a: int, b: int|
                    0 <= a < b < self.entries_seq().len() implies lex_lt(
                    self.entries_seq()[a].address@,
                    self.entries_seq()[b].address@,
                ) by {
                    assert(old(self).entries_seq()[a].address@ == self.entries_seq()[a].address@
                        || a == j as int);
                    assert(old(self).entries_seq()[b].address@ == self.entries_seq()[b].address@
                        || b == j as int);
                    assert(lex_lt(
                        old(self).entries_seq()[a].address@,
                        old(self).entries_seq()[b].address@,
                    ));
                }
            }
        } else {
            // First sighting of this address: it enters as reported.
            proof {
                if j < n {
                    assert(lex_lt(frag.address@, self.entries_seq()[j as int].address@)) by {
                        if !lex_lt(frag.address@, self.entries_seq()[j as int].address@) {
                            lemma_lex_total(
                                self.entries_seq()[j as int].address@,
                                frag.address@,
                            );
                        }
                    }
                }
                assert forall|t: int|
                    0 <= t < self.entries_seq().len() implies self.entries_seq()[t].address@
                    != frag.address@ by {
                    if self.entries_seq()[t].address@ == frag.address@ {
                        if t < j {
                            lemma_lex_irrefl(frag.address@);
                        } else if t == j as int {
                            lemma_lex_irrefl(frag.address@);
                        } else {
                            assert(lex_lt(
                                self.entries_seq()[j as int].address@,
                                self.entries_seq()[t].address@,
                            ));
                            lemma_lex_trans(
                                frag.address@,
                                self.entries_seq()[j as int].address@,
                                self.entries_seq()[t].address@,
                            );
                            lemma_lex_irrefl(frag.address@);
                        }
                    }
                }
                if old(self)@.contains_key(frag.address@) {
                    let i = choose|i: int|
                        0 <= i < old(self).entries_seq().len()
                            && old(self).entries_seq()[i].address@ == frag.address@;
                }
            }
            let item = TraceAccount {
                address: frag.address.duplicate(),
                account: duplicate_account(&frag.account),
            };
            proof {
                lemma_account_map_insert_at(self.entries@, j as int, item);
            }
            self.entries.insert(j, item);
            proof {
                assert forall|a: int, b: int|
                    0 <= a < b < self.entries_seq().len() implies lex_lt(
                    self.entries_seq()[a].address@,
                    self.entries_seq()[b].address@,
                ) by {
                    let a0 = if a < j as int {
                        a
                    } else {
                        a - 1
                    };
                    let b0 = if b < j as int {
                        b
                    } else {
                        b - 1
                    };
                    if a == j as int && b > j as int {
                        assert(self.entries_seq()[b] == old(self).entries_seq()[b - 1]);
                        if b - 1 == j as int {
                            assert(lex_lt(
                                frag.address@,
                                old(self).entries_seq()[j as int].address@,
                            ));
                        } else {
                            assert(lex_lt(
                                old(self).entries_seq()[j as int].address@,
                                old(self).entries_seq()[b - 1].address@,
                            ));
                            lemma_lex_trans(
                                frag.address@,
                                old(self).entries_seq()[j as int].address@,
                                old(self).entries_seq()[b - 1].address@,
                            );
                        }
                    } else if b == j as int {
                        assert(self.entries_seq()[a] == old(self).entries_seq()[a]);
                        assert(lex_lt(old(self).entries_seq()[a].address@, frag.address@));
                    } else {
                        assert(self.entries_seq()[a] == old(self).entries_seq()[a0]);
                        assert(self.entries_seq()[b] == old(self).entries_seq()[b0]);
                        if a0 == b0 {
                        } else {
                            assert(lex_lt(
                                old(self).entries_seq()[a0].address@,
                                old(self).entries_seq()[b0].address@,
                            ));
                        }
                    }
                }
                assert forall|a: int|
                    0 <= a < self.entries_seq().len() implies (#[trigger] self.entries_seq()[a]).address.wf() by {
                    if a != j as int {
                        let a0 = if a < j as int {
                            a
                        } else {
                            a - 1
                        };
                        assert(self.entries_seq()[a] == old(self).entries_seq()[a0]);
                    }
                }
            }
        }
    }
}

/// Strict lexicographic order is transitive.
pub proof fn lemma_lex_trans(a: Seq<u8>, b: Seq<u8>, c: Seq<u8>)
    requires
        lex_lt(a, b),
        lex_lt(b, c),
    ensures
        lex_lt(a, c),
    decreases a.len(),
{
    if b.len() > 0 && c.len() > 0 && a.len() > 0 {
        if a[0] == b[0] && b[0] == c[0] {
            lemma_lex_trans(a.drop_first(), b.drop_first(), c.drop_first());
        }
    }
}

/// The key views of a slot list, in order.
pub open spec fn slot_keys(s: Seq<SlotEntry>) -> Seq<Seq<u8>> {
    Seq::new(s.len(), |i: int| s[i].key@)
}

/// The byte strings of a list of byte vectors, in order.
pub open spec fn key_views(s: Seq<Vec<u8>>) -> Seq<Seq<u8>> {
    Seq::new(s.len(), |i: int| s[i]@)
}

/// The storage-key list to fetch proofs for: the account's touched keys in
/// order, then the retry controller's extra slots for that address.
#[verifier::loop_isolation(false)]
pub fn storage_key_list(account: &AccountState, extra: &Vec<Vec<u8>>) -> (r: Vec<Vec<u8>>)
    ensures
        key_views(r@) == (match account.storage {
            Some(s) => slot_keys(s@),
            None => Seq::<Seq<u8>>::empty(),
        }) + key_views(extra@),
{
    let mut out: Vec<Vec<u8>> = Vec::new();
    match &account.storage {
        Some(s) => {
            let n = s.len();
            let mut i: usize = 0;
            while i < n
                invariant
                    i <= n,
                    out@.len() == i,
                    forall|j: int| 0 <= j < i ==> (#[trigger] out@[j])@ == s@[j].key@,
                decreases n - i,
            {
                out.push(copy_bytes(&s[i].key));
                i = i + 1;
            }
        },
        None => {},
    }
    let ghost touched_len = out@.len();
    let m = extra.len();
    let mut t: usize = 0;
    while t < m
        invariant
            t <= m,
            out@.len() == touched_len + t,
            match account.storage {
                Some(s) => touched_len == s@.len() && (forall|j: int|
                    0 <= j < touched_len ==> (#[trigger] out@[j])@ == s@[j].key@),
                None => touched_len == 0,
            },
            forall|j: int|
                touched_len <= j < out@.len() ==> (#[trigger] out@[j])@ == extra@[j
                    - touched_len]@,
        decreases m - t,
    {
        out.push(copy_bytes(&extra[t]));
        t = t + 1;
    }
    proof {
        assert(key_views(out@) =~= (match account.storage {
            Some(s) => slot_keys(s@),
            None => Seq::<Seq<u8>>::empty(),
        }) + key_views(extra@));
    }
    out
}

} // verus!
