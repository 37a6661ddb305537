//! The outside trie that realizes a skeleton: `eth_trie_utils` holds the
//! canonical Merkle-Patricia encoding and hashing, which this library treats
//! as a capability behind narrow trusted declarations. A skeleton is poured
//! into such a trie entry by entry, and the trie then answers for the root
//! digest and for stored values.

use vstd::prelude::*;

use crate::nibbles::NibblePath;
use crate::nibbles::is_prefix;
use crate::skeleton::EntryView;
use crate::skeleton::TrieEntry;
use crate::skeleton::TrieSkeleton;
use crate::skeleton::digests_of;
use crate::skeleton::values_of;

verus! {

#[verifier::external_type_specification]
#[verifier::external_body]
pub struct ExPartialTrie(eth_trie_utils::partial_trie::PartialTrie);

/// Name for the leaf values an outside trie holds, by nibble path.
pub uninterp spec fn trie_vals(t: eth_trie_utils::partial_trie::PartialTrie) -> Map<
    Seq<u8>,
    Seq<u8>,
>;

/// Name for the hash placeholders an outside trie holds, by nibble path.
pub uninterp spec fn trie_digests(t: eth_trie_utils::partial_trie::PartialTrie) -> Map<
    Seq<u8>,
    Seq<u8>,
>;

/// Name for the canonical Merkle-Patricia root digest of given contents:
/// the trie commitment is a function of the leaf values and placeholders
/// alone.
pub uninterp spec fn root_of(vals: Map<Seq<u8>, Seq<u8>>, digests: Map<Seq<u8>, Seq<u8>>) -> Seq<
    u8,
>;

/// A map from paths to bytes holding nothing.
pub open spec fn empty_bytes_map() -> Map<Seq<u8>, Seq<u8>> {
    Map::empty()
}

/// No stored path is prefix-related to `q`: an insert at `q` then never
/// walks into a placeholder and never overwrites another line.
pub open spec fn line_free(
    vals: Map<Seq<u8>, Seq<u8>>,
    digests: Map<Seq<u8>, Seq<u8>>,
    q: Seq<u8>,
) -> bool {
    &&& forall|p: Seq<u8>|
        vals.contains_key(p) ==> !is_prefix(p, q) && !is_prefix(q, p)
    &&& forall|p: Seq<u8>|
        digests.contains_key(p) ==> !is_prefix(p, q) && !is_prefix(q, p)
}

/// Relies on eth_trie_utils::partial_trie::PartialTrie::Empty: the trie
/// holding nothing.
#[verifier::external_body]
pub fn new_trie() -> (out: eth_trie_utils::partial_trie::PartialTrie)
    ensures
        trie_vals(out) == empty_bytes_map(),
        trie_digests(out) == empty_bytes_map(),
{
    eth_trie_utils::partial_trie::PartialTrie::Empty
}

/// Relies on eth_trie_utils::partial_trie::PartialTrie::insert with a byte
/// value: a leaf lands at the given path; on a line no other entry touches,
/// nothing else moves.
#[verifier::external_body]
fn trie_insert_value(
    t: &mut eth_trie_utils::partial_trie::PartialTrie,
    path: &NibblePath,
    value: &Vec<u8>,
)
    requires
        path.wf(),
        line_free(trie_vals(*old(t)), trie_digests(*old(t)), path@),
    ensures
        trie_vals(*final(t)) == trie_vals(*old(t)).insert(path@, value@),
        trie_digests(*final(t)) == trie_digests(*old(t)),
{
    let mut k = eth_trie_utils::partial_trie::Nibbles { count: 0, packed: ethers::types::U256::zero() };
    let mut i: usize = 0;
    while i < path.len() {
        k.push_nibble_back(path.nibble_at(i));
        i += 1;
    }
    t.insert(k, value.clone());
}

/// Relies on eth_trie_utils::partial_trie::PartialTrie::insert with a
/// digest: a hash placeholder lands at the given path; on a line no other
/// entry touches, nothing else moves.
#[verifier::external_body]
fn trie_insert_digest(
    t: &mut eth_trie_utils::partial_trie::PartialTrie,
    path: &NibblePath,
    digest: &Vec<u8>,
)
    requires
        path.wf(),
        digest@.len() == 32,
        line_free(trie_vals(*old(t)), trie_digests(*old(t)), path@),
    ensures
        trie_digests(*final(t)) == trie_digests(*old(t)).insert(path@, digest@),
        trie_vals(*final(t)) == trie_vals(*old(t)),
{
    let mut k = eth_trie_utils::partial_trie::Nibbles { count: 0, packed: ethers::types::U256::zero() };
    let mut i: usize = 0;
    while i < path.len() {
        k.push_nibble_back(path.nibble_at(i));
        i += 1;
    }
    t.insert(k, ethers::types::H256::from_slice(digest.as_slice()));
}

/// Relies on eth_trie_utils::partial_trie::PartialTrie::calc_hash: the
/// canonical Merkle-Patricia commitment of the trie's contents.
#[verifier::external_body]
pub fn trie_root(t: &eth_trie_utils::partial_trie::PartialTrie) -> (r: [u8; 32])
    ensures
        r@ == root_of(trie_vals(*t), trie_digests(*t)),
{
    t.calc_hash().0
}

/// The leaf values among the first `n` skeleton entries.
pub open spec fn vals_upto(paths: Seq<Seq<u8>>, ents: Seq<EntryView>, n: int) -> Map<
    Seq<u8>,
    Seq<u8>,
>
    decreases n,
{
    if n <= 0 {
        Map::empty()
    } else {
        let m = vals_upto(paths, ents, n - 1);
        if ents[n - 1] is Value {
            m.insert(paths[n - 1], ents[n - 1]->Value_0)
        } else {
            m
        }
    }
}

/// The digest placeholders among the first `n` skeleton entries.
pub open spec fn digests_upto(paths: Seq<Seq<u8>>, ents: Seq<EntryView>, n: int) -> Map<
    Seq<u8>,
    Seq<u8>,
>
    decreases n,
{
    if n <= 0 {
        Map::empty()
    } else {
        let m = digests_upto(paths, ents, n - 1);
        if ents[n - 1] is Digest {
            m.insert(paths[n - 1], ents[n - 1]->Digest_0)
        } else {
            m
        }
    }
}

proof fn lemma_upto_contains(paths: Seq<Seq<u8>>, ents: Seq<EntryView>, n: int, p: Seq<u8>)
    requires
        0 <= n <= paths.len(),
        ents.len() == paths.len(),
    ensures
        vals_upto(paths, ents, n).contains_key(p) <==> exists|i: int|
            0 <= i < n && paths[i] == p && ents[i] is Value,
        digests_upto(paths, ents, n).contains_key(p) <==> exists|i: int|
            0 <= i < n && paths[i] == p && ents[i] is Digest,
    decreases n,
{
    if n > 0 {
        lemma_upto_contains(paths, ents, n - 1, p);
        if vals_upto(paths, ents, n).contains_key(p) {
            if paths[n - 1] == p && ents[n - 1] is Value {
                assert(0 <= n - 1 < n && paths[n - 1] == p && ents[n - 1] is Value);
            }
        }
        if exists|i: int| 0 <= i < n && paths[i] == p && ents[i] is Value {
            let i = choose|i: int| 0 <= i < n && paths[i] == p && ents[i] is Value;
            if i < n - 1 {
                assert(vals_upto(paths, ents, n - 1).contains_key(p));
            }
        }
        if exists|i: int| 0 <= i < n && paths[i] == p && ents[i] is Digest {
            let i = choose|i: int| 0 <= i < n && paths[i] == p && ents[i] is Digest;
            if i < n - 1 {
                assert(digests_upto(paths, ents, n - 1).contains_key(p));
            }
        }
    }
}

/// Pours a skeleton into a fresh outside trie: every digest placeholder and
/// every completed leaf lands at its path.
#[verifier::loop_isolation(false)]
pub fn build_trie(skel: &TrieSkeleton) -> (t: eth_trie_utils::partial_trie::PartialTrie)
    requires
        skel.wf(),
    ensures
        trie_vals(t) == values_of(skel@),
        trie_digests(t) == digests_of(skel@),
{
    proof {
        skel.lemma_items_view();
    }
    let ghost paths = skel.paths_seq();
    let ghost ents = skel.entries_seq();
    let mut t = new_trie();
    let n = skel.entry_count();
    let mut i: usize = 0;
    while i < n
        invariant
            i <= n,
            n == skel.items_len(),
            trie_vals(t) == vals_upto(paths, ents, i as int),
            trie_digests(t) == digests_upto(paths, ents, i as int),
        decreases n - i,
    {
        let path = skel.path_at(i);
        proof {
            assert(path@ == paths[i as int]);
            assert forall|p: Seq<u8>| trie_vals(t).contains_key(p) implies !is_prefix(p, path@)
                && !is_prefix(path@, p) by {
                lemma_upto_contains(paths, ents, i as int, p);
                let j = choose|j: int| 0 <= j < i && paths[j] == p && ents[j] is Value;
                assert(!is_prefix(paths[j], paths[i as int]));
                assert(!is_prefix(paths[i as int], paths[j]));
            }
            assert forall|p: Seq<u8>| trie_digests(t).contains_key(p) implies !is_prefix(p, path@)
                && !is_prefix(path@, p) by {
                lemma_upto_contains(paths, ents, i as int, p);
                let j = choose|j: int| 0 <= j < i && paths[j] == p && ents[j] is Digest;
                assert(!is_prefix(paths[j], paths[i as int]));
                assert(!is_prefix(paths[i as int], paths[j]));
            }
        }
        match skel.entry_at(i) {
            TrieEntry::Value(v) => {
                trie_insert_value(&mut t, path, v);
            },
            TrieEntry::Digest(d) => {
                proof {
                    assert(ents[i as int] is Digest && ents[i as int]->Digest_0 == d@);
                    assert(d@.len() == 32);
                }
                trie_insert_digest(&mut t, path, d);
            },
        }
        i = i + 1;
    }
    proof {
        lemma_upto_full(skel, paths, ents);
    }
    t
}

/// At full length, the incremental maps are the skeleton's projections.
proof fn lemma_upto_full(skel: &TrieSkeleton, paths: Seq<Seq<u8>>, ents: Seq<EntryView>)
    requires
        skel.wf(),
        paths == skel.paths_seq(),
        ents == skel.entries_seq(),
    ensures
        vals_upto(paths, ents, skel.items_len()) =~= values_of(skel@),
        digests_upto(paths, ents, skel.items_len()) =~= digests_of(skel@),
{
    let n = skel.items_len();
    skel.lemma_items_view();
    assert forall|p: Seq<u8>|
        vals_upto(paths, ents, n).contains_key(p) <==> values_of(skel@).contains_key(p) by {
        lemma_upto_contains(paths, ents, n, p);
        if values_of(skel@).contains_key(p) {
            let i = choose|i: int| 0 <= i < n && skel.paths_seq()[i] == p;
            assert(skel@[p] == ents[i]);
        }
    }
    assert forall|p: Seq<u8>| vals_upto(paths, ents, n).contains_key(p) implies vals_upto(
        paths,
        ents,
        n,
    )[p] == values_of(skel@)[p] by {
        lemma_upto_contains(paths, ents, n, p);
        let i = choose|i: int| 0 <= i < n && paths[i] == p && ents[i] is Value;
        lemma_upto_index(skel, paths, ents, n, i);
    }
    assert forall|p: Seq<u8>|
        digests_upto(paths, ents, n).contains_key(p) <==> digests_of(skel@).contains_key(p) by {
        lemma_upto_contains(paths, ents, n, p);
        if digests_of(skel@).contains_key(p) {
            let i = choose|i: int| 0 <= i < n && skel.paths_seq()[i] == p;
            assert(skel@[p] == ents[i]);
        }
    }
    assert forall|p: Seq<u8>| digests_upto(paths, ents, n).contains_key(p) implies digests_upto(
        paths,
        ents,
        n,
    )[p] == digests_of(skel@)[p] by {
        lemma_upto_contains(paths, ents, n, p);
        let i = choose|i: int| 0 <= i < n && paths[i] == p && ents[i] is Digest;
        lemma_upto_index(skel, paths, ents, n, i);
    }
}

/// The incremental map agrees with the items it was folded from.
proof fn lemma_upto_index(
    skel: &TrieSkeleton,
    paths: Seq<Seq<u8>>,
    ents: Seq<EntryView>,
    n: int,
    i: int,
)
    requires
        skel.wf(),
        paths == skel.paths_seq(),
        ents == skel.entries_seq(),
        0 <= i < n <= skel.items_len(),
    ensures
        ents[i] is Value ==> vals_upto(paths, ents, n).contains_key(paths[i]) && vals_upto(
            paths,
            ents,
            n,
        )[paths[i]] == ents[i]->Value_0,
        ents[i] is Digest ==> digests_upto(paths, ents, n).contains_key(paths[i]) && digests_upto(
            paths,
            ents,
            n,
        )[paths[i]] == ents[i]->Digest_0,
    decreases n,
{
    skel.lemma_items_view();
    if i == n - 1 {
    } else {
        lemma_upto_index(skel, paths, ents, n - 1, i);
        assert(paths[n - 1] != paths[i]) by {
            assert(!is_prefix(skel.paths_seq()[n - 1], skel.paths_seq()[i]));
            if paths[n - 1] == paths[i] {
                crate::skeleton::lemma_prefix_refl(paths[i]);
            }
        }
    }
}

/// The canonical root digest of a realized skeleton.
pub fn skeleton_root(skel: &TrieSkeleton) -> (r: [u8; 32])
    requires
        skel.wf(),
    ensures
        r@ == root_of(values_of(skel@), digests_of(skel@)),
{
    let t = build_trie(skel);
    trie_root(&t)
}

} // verus!
