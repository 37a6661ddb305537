//! The sparse trie skeleton that proof replay fills: an arena of entries
//! keyed by nibble path. An entry is either a bare digest standing for an
//! unexpanded subtree, or the raw value bytes of a completed leaf. The
//! paths present never sit on one descent line (no entry's path is a prefix
//! of another's), which is what keeps one proof's expansion from being
//! overwritten by another proof's placeholder.

use vstd::prelude::*;

use crate::bytes::copy_bytes;
use crate::nibbles::NibblePath;
use crate::nibbles::is_prefix;
use crate::nibbles::valid_path;

verus! {

/// What the skeleton holds at one path.
pub enum TrieEntry {
    /// A 32-byte digest of a subtree whose contents are unknown.
    Digest(Vec<u8>),
    /// Raw value bytes of a completed leaf.
    Value(Vec<u8>),
}

/// Spec-level form of one entry.
pub enum EntryView {
    Digest(Seq<u8>),
    Value(Seq<u8>),
}

impl View for TrieEntry {
    type V = EntryView;

    open spec fn view(&self) -> EntryView {
        match self {
            TrieEntry::Digest(d) => EntryView::Digest(d@),
            TrieEntry::Value(v) => EntryView::Value(v@),
        }
    }
}

impl TrieEntry {
    /// A fresh entry holding the same bytes.
    pub fn duplicate(&self) -> (r: Self)
        ensures
            r@ == self@,
    {
        match self {
            TrieEntry::Digest(d) => TrieEntry::Digest(copy_bytes(d)),
            TrieEntry::Value(v) => TrieEntry::Value(copy_bytes(v)),
        }
    }
}

pub struct SkelItem {
    pub path: NibblePath,
    pub entry: TrieEntry,
}

/// The map an item list stands for; a later item overwrites an earlier one
/// at the same path (well-formed skeletons have no such pair).
pub open spec fn map_of(items: Seq<SkelItem>) -> Map<Seq<u8>, EntryView>
    decreases items.len(),
{
    if items.len() == 0 {
        Map::empty()
    } else {
        map_of(items.drop_last()).insert(items.last().path@, items.last().entry@)
    }
}

/// No path in the map lies on the descent line of another: none is a
/// prefix of a distinct other.
pub open spec fn antichain(m: Map<Seq<u8>, EntryView>) -> bool {
    forall|p: Seq<u8>, q: Seq<u8>|
        m.contains_key(p) && m.contains_key(q) && p != q ==> !is_prefix(p, q)
}

/// Some path of the map is prefix-related to `q` (equality included).
pub open spec fn overlaps(m: Map<Seq<u8>, EntryView>, q: Seq<u8>) -> bool {
    exists|p: Seq<u8>| m.contains_key(p) && (is_prefix(p, q) || is_prefix(q, p))
}

/// Some path of the map other than `q` itself is prefix-related to `q`.
pub open spec fn blocked(m: Map<Seq<u8>, EntryView>, q: Seq<u8>) -> bool {
    exists|p: Seq<u8>| m.contains_key(p) && p != q && (is_prefix(p, q) || is_prefix(q, p))
}

/// The completed leaves of a skeleton: path to raw value bytes.
pub open spec fn values_of(m: Map<Seq<u8>, EntryView>) -> Map<Seq<u8>, Seq<u8>> {
    Map::new(
        |p: Seq<u8>| m.contains_key(p) && m[p] is Value,
        |p: Seq<u8>| m[p]->Value_0,
    )
}

/// The digest placeholders of a skeleton: path to 32-byte digest.
pub open spec fn digests_of(m: Map<Seq<u8>, EntryView>) -> Map<Seq<u8>, Seq<u8>> {
    Map::new(
        |p: Seq<u8>| m.contains_key(p) && m[p] is Digest,
        |p: Seq<u8>| m[p]->Digest_0,
    )
}

/// Every completed leaf sits at full key depth: 64 nibbles.
pub open spec fn values_full_depth(m: Map<Seq<u8>, EntryView>) -> bool {
    forall|p: Seq<u8>| m.contains_key(p) && m[p] is Value ==> p.len() == 64
}

/// A sparse partial trie under construction, stored as entries keyed by
/// nibble path.
pub struct TrieSkeleton {
    items: Vec<SkelItem>,
}

impl View for TrieSkeleton {
    type V = Map<Seq<u8>, EntryView>;

    closed spec fn view(&self) -> Map<Seq<u8>, EntryView> {
        map_of(self.items@)
    }
}

/// Every sequence is a prefix of itself.
pub proof fn lemma_prefix_refl(p: Seq<u8>)
    ensures
        is_prefix(p, p),
{
    assert(p.subrange(0, p.len() as int) =~= p);
}

proof fn lemma_map_contains(items: Seq<SkelItem>, p: Seq<u8>)
    ensures
        map_of(items).contains_key(p) <==> exists|i: int|
            0 <= i < items.len() && items[i].path@ == p,
    decreases items.len(),
{
    if items.len() > 0 {
        lemma_map_contains(items.drop_last(), p);
        if items.last().path@ == p {
            assert(items[items.len() - 1].path@ == p);
        } else {
            if map_of(items).contains_key(p) {
                let i = choose|i: int| 0 <= i < items.drop_last().len() && items.drop_last()[i].path@ == p;
                assert(items[i].path@ == p);
            }
            if exists|i: int| 0 <= i < items.len() && items[i].path@ == p {
                let i = choose|i: int| 0 <= i < items.len() && items[i].path@ == p;
                assert(items.drop_last()[i].path@ == p);
            }
        }
    }
}

proof fn lemma_map_index(items: Seq<SkelItem>, i: int)
    requires
        0 <= i < items.len(),
        forall|a: int, b: int|
            0 <= a < items.len() && 0 <= b < items.len() && a != b ==> items[a].path@
                != items[b].path@,
    ensures
        map_of(items).contains_key(items[i].path@),
        map_of(items)[items[i].path@] == items[i].entry@,
    decreases items.len(),
{
    lemma_map_contains(items, items[i].path@);
    if i == items.len() - 1 {
    } else {
        assert(items.last().path@ != items[i].path@);
        assert(items.drop_last()[i] == items[i]);
        lemma_map_index(items.drop_last(), i);
    }
}

proof fn lemma_map_remove(items: Seq<SkelItem>, i: int)
    requires
        0 <= i < items.len(),
        forall|a: int, b: int|
            0 <= a < items.len() && 0 <= b < items.len() && a != b ==> items[a].path@
                != items[b].path@,
    ensures
        map_of(items.remove(i)) =~= map_of(items).remove(items[i].path@),
    decreases items.len(),
{
    if i == items.len() - 1 {
        assert(items.remove(i) =~= items.drop_last());
        lemma_map_contains(items.drop_last(), items[i].path@);
        assert(map_of(items.drop_last()) =~= map_of(items).remove(items[i].path@));
    } else {
        assert(items.remove(i).drop_last() =~= items.drop_last().remove(i));
        assert(items.remove(i).last() == items.last());
        lemma_map_remove(items.drop_last(), i);
        assert(map_of(items.remove(i)) =~= map_of(items.drop_last().remove(i)).insert(
            items.last().path@,
            items.last().entry@,
        ));
        assert(items.last().path@ != items[i].path@);
    }
}

impl TrieSkeleton {
    /// Well-formedness: no stored path is a prefix of a distinct other
    /// (and so all paths are distinct), each path is a valid nibble path,
    /// and every digest entry holds 32 bytes.
    pub open spec fn wf(self) -> bool {
        &&& forall|a: int, b: int|
            0 <= a < self.items_len() && 0 <= b < self.items_len() && a != b
                ==> !is_prefix(self.paths_seq()[a], self.paths_seq()[b])
        &&& forall|a: int| 0 <= a < self.items_len() ==> valid_path(self.paths_seq()[a])
        &&& forall|a: int|
            0 <= a < self.items_len() ==> ((#[trigger] self.entries_seq()[a]) is Digest
                ==> self.entries_seq()[a]->Digest_0.len() == 32)
    }

    pub closed spec fn items_len(self) -> int {
        self.items@.len() as int
    }

    pub closed spec fn paths_seq(self) -> Seq<Seq<u8>> {
        self.items@.map(|i: int, it: SkelItem| it.path@)
    }

    pub closed spec fn entries_seq(self) -> Seq<EntryView> {
        self.items@.map(|i: int, it: SkelItem| it.entry@)
    }

    /// Distinct stored items hold distinct paths.
    proof fn lemma_distinct(self)
        requires
            self.wf(),
        ensures
            forall|a: int, b: int|
                0 <= a < self.items@.len() && 0 <= b < self.items@.len() && a != b
                    ==> self.items@[a].path@ != self.items@[b].path@,
    {
        assert forall|a: int, b: int|
            0 <= a < self.items@.len() && 0 <= b < self.items@.len() && a != b implies self.items@[a].path@
            != self.items@[b].path@ by {
            assert(self.paths_seq()[a] == self.items@[a].path@);
            assert(self.paths_seq()[b] == self.items@[b].path@);
            if self.items@[a].path@ == self.items@[b].path@ {
                lemma_prefix_refl(self.items@[a].path@);
            }
            assert(!is_prefix(self.paths_seq()[a], self.paths_seq()[b]));
        }
    }

    /// Every stored item is in the view map, and every key of the view map
    /// is a stored item.
    pub proof fn lemma_items_view(self)
        requires
            self.wf(),
        ensures
            self.paths_seq().len() == self.items_len(),
            self.entries_seq().len() == self.items_len(),
            forall|i: int|
                0 <= i < self.items_len() ==> self@.contains_key(#[trigger] self.paths_seq()[i])
                    && self@[self.paths_seq()[i]] == self.entries_seq()[i],
            forall|p: Seq<u8>|
                self@.contains_key(p) ==> exists|i: int|
                    0 <= i < self.items_len() && self.paths_seq()[i] == p,
    {
        assert forall|i: int| 0 <= i < self.items_len() implies self@.contains_key(
            #[trigger] self.paths_seq()[i],
        ) && self@[self.paths_seq()[i]] == self.entries_seq()[i] by {
            self.lemma_distinct();
            lemma_map_index(self.items@, i);
        }
        assert forall|p: Seq<u8>| self@.contains_key(p) implies exists|i: int|
            0 <= i < self.items_len() && self.paths_seq()[i] == p by {
            lemma_map_contains(self.items@, p);
            let i = choose|i: int| 0 <= i < self.items@.len() && self.items@[i].path@ == p;
            assert(self.paths_seq()[i] == p);
        }
    }

    /// A well-formed skeleton's entries form an antichain of paths: no
    /// digest placeholder survives at a path whose subtree holds another
    /// entry, and no two entries share a path.
    pub proof fn lemma_antichain(self)
        requires
            self.wf(),
        ensures
            antichain(self@),
    {
        self.lemma_items_view();
        assert forall|p: Seq<u8>, q: Seq<u8>|
            self@.contains_key(p) && self@.contains_key(q) && p != q implies !is_prefix(p, q) by {
            let i = choose|i: int| 0 <= i < self.items_len() && self.paths_seq()[i] == p;
            let j = choose|j: int| 0 <= j < self.items_len() && self.paths_seq()[j] == q;
        }
    }

    /// An empty skeleton.
    pub fn new() -> (r: Self)
        ensures
            r.wf(),
            r@ == Map::<Seq<u8>, EntryView>::empty(),
    {
        TrieSkeleton { items: Vec::new() }
    }

    pub fn entry_count(&self) -> (n: usize)
        ensures
            n == self.items_len(),
    {
        self.items.len()
    }

    pub fn path_at(&self, i: usize) -> (r: &NibblePath)
        requires
            0 <= i < self.items_len(),
        ensures
            r@ == self.paths_seq()[i as int],
    {
        &self.items[i].path
    }

    pub fn entry_at(&self, i: usize) -> (r: &TrieEntry)
        requires
            0 <= i < self.items_len(),
        ensures
            r@ == self.entries_seq()[i as int],
    {
        &self.items[i].entry
    }

    /// Index of the entry exactly at `q`, if one is stored.
    fn find_index(&self, q: &NibblePath) -> (r: Option<usize>)
        ensures
            match r {
                Some(i) => i < self.items_len() && self.paths_seq()[i as int] == q@,
                None => forall|i: int|
                    0 <= i < self.items_len() ==> self.paths_seq()[i] != q@,
            },
    {
        let n = self.items.len();
        let mut i: usize = 0;
        while i < n
            invariant
                i <= n,
                n == self.items_len(),
                forall|j: int| 0 <= j < i ==> self.paths_seq()[j] != q@,
            decreases n - i,
        {
            if self.items[i].path.eq_path(q) {
                return Some(i);
            }
            i = i + 1;
        }
        None
    }

    /// Whether no stored path is prefix-related to `q` (equality included).
    pub fn is_free(&self, q: &NibblePath) -> (r: bool)
        requires
            self.wf(),
        ensures
            r == !overlaps(self@, q@),
    {
        proof {
            self.lemma_items_view();
        }
        let n = self.items.len();
        let mut i: usize = 0;
        while i < n
            invariant
                self.wf(),
                i <= n,
                n == self.items_len(),
                forall|j: int|
                    0 <= j < i ==> !is_prefix(#[trigger] self.paths_seq()[j], q@) && !is_prefix(
                        q@,
                        self.paths_seq()[j],
                    ),
            decreases n - i,
        {
            let p = &self.items[i].path;
            if p.is_prefix_of(q) || q.is_prefix_of(p) {
                proof {
                    self.lemma_items_view();
                    assert(self@.contains_key(self.paths_seq()[i as int]));
                }
                return false;
            }
            i = i + 1;
        }
        proof {
            self.lemma_items_view();
            if overlaps(self@, q@) {
                let p = choose|p: Seq<u8>|
                    self@.contains_key(p) && (is_prefix(p, q@) || is_prefix(q@, p));
                let j = choose|j: int| 0 <= j < self.items_len() && self.paths_seq()[j] == p;
            }
        }
        true
    }

    /// Inserts a digest placeholder at `q` unless some stored path is
    /// prefix-related to `q`; an already expanded or claimed region is
    /// never overwritten.
    pub fn insert_digest_if_free(&mut self, q: &NibblePath, digest: &Vec<u8>)
        requires
            old(self).wf(),
            q.wf(),
            digest@.len() == 32,
        ensures
            final(self).wf(),
            final(self)@ == if overlaps(old(self)@, q@) {
                old(self)@
            } else {
                old(self)@.insert(q@, EntryView::Digest(digest@))
            },
    {
        if self.is_free(q) {
            proof {
                self.lemma_items_view();
            }
            let item = SkelItem { path: q.duplicate(), entry: TrieEntry::Digest(copy_bytes(digest)) };
            self.items.push(item);
            proof {
                let pre = old(self).items@;
                assert(self.items@.drop_last() =~= pre);
                assert forall|a: int| 0 <= a < self.items_len() implies #[trigger] self.paths_seq()[a]
                    == (if a < pre.len() {
                    old(self).paths_seq()[a]
                } else {
                    q@
                }) by {
                    assert(self.paths_seq()[a] == self.items@[a].path@);
                    if a < pre.len() {
                        assert(self.items@[a] == pre[a]);
                        assert(old(self).paths_seq()[a] == pre[a].path@);
                    }
                }
                assert forall|a: int, b: int|
                    0 <= a < self.items_len() && 0 <= b < self.items_len() && a != b implies !is_prefix(
                    self.paths_seq()[a],
                    self.paths_seq()[b],
                ) by {
                    old(self).lemma_items_view();
                    if a < pre.len() && b < pre.len() {
                        assert(!is_prefix(old(self).paths_seq()[a], old(self).paths_seq()[b]));
                    } else if a == pre.len() && b < pre.len() {
                        assert(old(self)@.contains_key(old(self).paths_seq()[b]));
                        assert(!is_prefix(q@, old(self).paths_seq()[b]));
                    } else if b == pre.len() && a < pre.len() {
                        assert(old(self)@.contains_key(old(self).paths_seq()[a]));
                        assert(!is_prefix(old(self).paths_seq()[a], q@));
                    }
                }
                assert forall|a: int| 0 <= a < self.items_len() implies valid_path(
                    #[trigger] self.paths_seq()[a],
                ) by {
                    if a < pre.len() {
                        assert(valid_path(old(self).paths_seq()[a]));
                    }
                }
                assert forall|a: int|
                    0 <= a < self.items_len() && (#[trigger] self.entries_seq()[a]) is Digest implies self.entries_seq()[a]->Digest_0.len()
                    == 32 by {
                    assert(self.entries_seq()[a] == self.items@[a].entry@);
                    if a < pre.len() {
                        assert(self.items@[a] == pre[a]);
                        assert(old(self).entries_seq()[a] == pre[a].entry@);
                        assert(old(self).entries_seq()[a] is Digest
                            ==> old(self).entries_seq()[a]->Digest_0.len() == 32);
                    }
                }
            }
        }
    }

    /// Removes the digest placeholder exactly at `q`, if one is stored;
    /// value entries are never removed.
    pub fn clear_digest_at(&mut self, q: &NibblePath)
        requires
            old(self).wf(),
        ensures
            final(self).wf(),
            final(self)@ == if old(self)@.contains_key(q@) && old(self)@[q@] is Digest {
                old(self)@.remove(q@)
            } else {
                old(self)@
            },
    {
        proof {
            old(self).lemma_items_view();
        }
        match self.find_index(q) {
            None => {
                proof {
                    if old(self)@.contains_key(q@) {
                        let i = choose|i: int|
                            0 <= i < old(self).items_len() && old(self).paths_seq()[i] == q@;
                    }
                }
            },
            Some(i) => {
                let is_digest = match &self.items[i].entry {
                    TrieEntry::Digest(_) => true,
                    TrieEntry::Value(_) => false,
                };
                proof {
                    self.lemma_distinct();
                    lemma_map_index(self.items@, i as int);
                }
                if is_digest {
                    proof {
                        lemma_map_remove(self.items@, i as int);
                    }
                    self.items.remove(i);
                    proof {
                        let pre = old(self).items@;
                        assert forall|a: int, b: int|
                            0 <= a < self.items_len() && 0 <= b < self.items_len() && a != b implies !is_prefix(
                            self.paths_seq()[a],
                            self.paths_seq()[b],
                        ) by {
                            let a0 = if a < i as int { a } else { a + 1 };
                            let b0 = if b < i as int { b } else { b + 1 };
                            assert(self.paths_seq()[a] == old(self).paths_seq()[a0]);
                            assert(self.paths_seq()[b] == old(self).paths_seq()[b0]);
                            assert(!is_prefix(old(self).paths_seq()[a0], old(self).paths_seq()[b0]));
                        }
                        assert forall|a: int| 0 <= a < self.items_len() implies valid_path(
                            self.paths_seq()[a],
                        ) by {
                            let a0 = if a < i as int { a } else { a + 1 };
                            assert(self.paths_seq()[a] == old(self).paths_seq()[a0]);
                        }
                        assert forall|a: int|
                            0 <= a < self.items_len() && (#[trigger] self.entries_seq()[a]) is Digest implies self.entries_seq()[a]->Digest_0.len()
                            == 32 by {
                            let a0 = if a < i as int { a } else { a + 1 };
                            assert(self.entries_seq()[a] == old(self).entries_seq()[a0]);
                            assert(old(self).entries_seq()[a0] is Digest
                                ==> old(self).entries_seq()[a0]->Digest_0.len() == 32);
                        }
                    }
                }
            },
        }
    }

    /// Writes the raw value bytes of a completed leaf at `q`, overwriting a
    /// same-path entry; if a distinct stored path is prefix-related to `q`
    /// the skeleton is left unchanged.
    pub fn insert_value_at(&mut self, q: &NibblePath, v: &Vec<u8>)
        requires
            old(self).wf(),
            q.wf(),
        ensures
            final(self).wf(),
            final(self)@ == if blocked(old(self)@, q@) {
                old(self)@
            } else {
                old(self)@.insert(q@, EntryView::Value(v@))
            },
    {
        proof {
            old(self).lemma_items_view();
        }
        // Refuse the write when a distinct stored path claims this line.
        let n = self.items.len();
        let mut i: usize = 0;
        while i < n
            invariant
                self.wf(),
                i <= n,
                n == self.items_len(),
                forall|j: int|
                    0 <= j < i ==> self.paths_seq()[j] == q@ || (!is_prefix(
                        #[trigger] self.paths_seq()[j],
                        q@,
                    ) && !is_prefix(q@, self.paths_seq()[j])),
            decreases n - i,
        {
            let p = &self.items[i].path;
            if !p.eq_path(q) && (p.is_prefix_of(q) || q.is_prefix_of(p)) {
                proof {
                    self.lemma_items_view();
                    assert(self@.contains_key(self.paths_seq()[i as int]));
                }
                return ;
            }
            i = i + 1;
        }
        proof {
            self.lemma_items_view();
            if blocked(self@, q@) {
                let p = choose|p: Seq<u8>|
                    self@.contains_key(p) && p != q@ && (is_prefix(p, q@) || is_prefix(q@, p));
                let j = choose|j: int| 0 <= j < self.items_len() && self.paths_seq()[j] == p;
            }
        }
        // Drop a same-path entry, then append the value.
        let ghost mid_expect: Map<Seq<u8>, EntryView> = old(self)@.remove(q@);
        match self.find_index(q) {
            None => {
                proof {
                    if old(self)@.contains_key(q@) {
                        let i = choose|i: int|
                            0 <= i < old(self).items_len() && old(self).paths_seq()[i] == q@;
                    }
                    assert(old(self)@.remove(q@) =~= old(self)@);
                }
            },
            Some(i) => {
                proof {
                    self.lemma_distinct();
                    lemma_map_remove(self.items@, i as int);
                }
                self.items.remove(i);
                proof {
                    let pre = old(self).items@;
                    assert forall|a: int, b: int|
                        0 <= a < self.items_len() && 0 <= b < self.items_len() && a != b implies !is_prefix(
                        self.paths_seq()[a],
                        self.paths_seq()[b],
                    ) by {
                        let a0 = if a < i as int { a } else { a + 1 };
                        let b0 = if b < i as int { b } else { b + 1 };
                        assert(self.paths_seq()[a] == old(self).paths_seq()[a0]);
                        assert(self.paths_seq()[b] == old(self).paths_seq()[b0]);
                        assert(!is_prefix(old(self).paths_seq()[a0], old(self).paths_seq()[b0]));
                    }
                    assert forall|a: int| 0 <= a < self.items_len() implies valid_path(
                        self.paths_seq()[a],
                    ) by {
                        let a0 = if a < i as int { a } else { a + 1 };
                        assert(self.paths_seq()[a] == old(self).paths_seq()[a0]);
                    }
                    assert forall|a: int|
                        0 <= a < self.items_len() && (#[trigger] self.entries_seq()[a]) is Digest implies self.entries_seq()[a]->Digest_0.len()
                        == 32 by {
                        let a0 = if a < i as int { a } else { a + 1 };
                        assert(self.entries_seq()[a] == old(self).entries_seq()[a0]);
                        assert(old(self).entries_seq()[a0] is Digest
                            ==> old(self).entries_seq()[a0]->Digest_0.len() == 32);
                    }
                    assert forall|j: int|
                        0 <= j < self.items_len() && self.paths_seq()[j] != q@ implies (!is_prefix(
                        #[trigger] self.paths_seq()[j],
                        q@,
                    ) && !is_prefix(q@, self.paths_seq()[j])) by {
                        let j0 = if j < i as int { j } else { j + 1 };
                        assert(self.paths_seq()[j] == old(self).paths_seq()[j0]);
                    }
                    assert forall|j: int| 0 <= j < self.items_len() implies #[trigger] self.paths_seq()[j]
                        != q@ by {
                        let j0 = if j < i as int { j } else { j + 1 };
                        assert(self.paths_seq()[j] == old(self).paths_seq()[j0]);
                        old(self).lemma_distinct();
                        assert(old(self).paths_seq()[j0] == old(self).items@[j0].path@);
                        assert(old(self).paths_seq()[i as int] == old(self).items@[i as int].path@);
                        assert(old(self).items@[j0].path@ != old(self).items@[i as int].path@);
                    }
                }
            },
        }
        proof {
            assert(self@ =~= mid_expect);
            assert forall|j: int| 0 <= j < self.items_len() implies !is_prefix(
                #[trigger] self.paths_seq()[j],
                q@,
            ) && !is_prefix(q@, self.paths_seq()[j]) by {
                assert(self.paths_seq()[j] != q@);
            }
        }
        let ghost pre_push = *self;
        let item = SkelItem { path: q.duplicate(), entry: TrieEntry::Value(copy_bytes(v)) };
        self.items.push(item);
        proof {
            let ghost mid = self.items@.drop_last();
            assert(mid =~= pre_push.items@);
            assert(self@ == map_of(mid).insert(q@, EntryView::Value(v@)));
            assert(map_of(mid) == mid_expect);
            assert(old(self)@.remove(q@).insert(q@, EntryView::Value(v@)) =~= old(self)@.insert(
                q@,
                EntryView::Value(v@),
            ));
            let pre_len = mid.len() as int;
            assert forall|a: int| 0 <= a < self.items_len() implies #[trigger] self.paths_seq()[a]
                == (if a < pre_len {
                pre_push.paths_seq()[a]
            } else {
                q@
            }) by {
                assert(self.paths_seq()[a] == self.items@[a].path@);
                if a < pre_len {
                    assert(self.items@[a] == pre_push.items@[a]);
                    assert(pre_push.paths_seq()[a] == pre_push.items@[a].path@);
                }
            }
            assert forall|a: int, b: int|
                0 <= a < self.items_len() && 0 <= b < self.items_len() && a != b implies !is_prefix(
                self.paths_seq()[a],
                self.paths_seq()[b],
            ) by {
                if a < pre_len && b < pre_len {
                    assert(!is_prefix(pre_push.paths_seq()[a], pre_push.paths_seq()[b]));
                } else if a == pre_len && b < pre_len {
                    assert(!is_prefix(q@, pre_push.paths_seq()[b]));
                } else if b == pre_len && a < pre_len {
                    assert(!is_prefix(pre_push.paths_seq()[a], q@));
                }
            }
            assert forall|a: int| 0 <= a < self.items_len() implies valid_path(
                #[trigger] self.paths_seq()[a],
            ) by {
                if a < pre_len {
                    assert(valid_path(pre_push.paths_seq()[a]));
                }
            }
            assert forall|a: int|
                0 <= a < self.items_len() && (#[trigger] self.entries_seq()[a]) is Digest implies self.entries_seq()[a]->Digest_0.len()
                == 32 by {
                assert(self.entries_seq()[a] == self.items@[a].entry@);
                if a < pre_len {
                    assert(self.items@[a] == pre_push.items@[a]);
                    assert(pre_push.entries_seq()[a] == pre_push.items@[a].entry@);
                    assert(pre_push.entries_seq()[a] is Digest
                        ==> pre_push.entries_seq()[a]->Digest_0.len() == 32);
                }
            }
        }
    }

    /// The raw value bytes stored at exactly `q`, if a value entry sits there.
    pub fn lookup_value(&self, q: &NibblePath) -> (r: Option<Vec<u8>>)
        requires
            self.wf(),
        ensures
            match r {
                Some(v) => self@.contains_key(q@) && self@[q@] == EntryView::Value(v@),
                None => !(self@.contains_key(q@) && self@[q@] is Value),
            },
    {
        proof {
            self.lemma_items_view();
        }
        match self.find_index(q) {
            None => {
                proof {
                    if self@.contains_key(q@) {
                        let i = choose|i: int|
                            0 <= i < self.items_len() && self.paths_seq()[i] == q@;
                    }
                }
                None
            },
            Some(i) => {
                match &self.items[i].entry {
                    TrieEntry::Value(v) => Some(copy_bytes(v)),
                    TrieEntry::Digest(_) => None,
                }
            },
        }
    }
}

} // verus!
