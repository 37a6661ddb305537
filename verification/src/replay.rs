//! Replaying one Merkle proof into the trie skeleton: each raw node is
//! decoded, walked against the target key, and the structural information it
//! reveals (sibling digests, and the leaf value when the key holds one) is
//! merged into the shared skeleton.

use vstd::prelude::*;

use crate::nibbles::NibblePath;
use crate::nibbles::is_prefix;
use crate::nibbles::nibbles_of_bytes;
use crate::nibbles::valid_path;
use crate::rlp_codec::decode_node_items;
use crate::rlp_codec::rlp_strings_of;
use crate::skeleton::EntryView;
use crate::skeleton::TrieSkeleton;
use crate::skeleton::blocked;
use crate::skeleton::values_full_depth;
use crate::skeleton::values_of;
use crate::skeleton::overlaps;

verus! {

/// Why a proof was refused.
#[derive(Clone, Copy, Debug, PartialEq, Eq, Structural)]
pub enum ProofError {
    /// A node is not an RLP list of byte strings, has an unsupported item
    /// count, a bad path flag, or a child reference that is not 32 bytes.
    MalformedNode,
    /// The node path does not descend toward the target key, or a leaf sits
    /// at the wrong depth.
    PathMismatch,
}

/// Removing the digest placeholder at `q`, if one sits there.
pub open spec fn clear_digest_model(
    m: Map<Seq<u8>, EntryView>,
    q: Seq<u8>,
) -> Map<Seq<u8>, EntryView> {
    if m.contains_key(q) && m[q] is Digest {
        m.remove(q)
    } else {
        m
    }
}

/// Placing the sibling digests of a branch node: for every index below
/// `upto` other than the descent nibble `n` whose reference is non-empty,
/// a digest placeholder lands at `prefix + index` unless that line is
/// already claimed.
pub open spec fn place_siblings(
    m: Map<Seq<u8>, EntryView>,
    key: Seq<u8>,
    consumed: int,
    n: u8,
    items: Seq<Seq<u8>>,
    upto: int,
) -> (Map<Seq<u8>, EntryView>, Option<ProofError>)
    decreases upto,
{
    if upto <= 0 {
        (m, None)
    } else {
        let (m1, e1) = place_siblings(m, key, consumed, n, items, upto - 1);
        if e1 is Some {
            (m1, e1)
        } else {
            let i = upto - 1;
            if i == n as int {
                (m1, None)
            } else {
                let refb = items[i];
                if refb.len() == 0 {
                    (m1, None)
                } else if refb.len() != 32 {
                    (m1, Some(ProofError::MalformedNode))
                } else {
                    let q = key.take(consumed).push(i as u8);
                    if overlaps(m1, q) {
                        (m1, None)
                    } else {
                        (m1.insert(q, EntryView::Digest(refb)), None)
                    }
                }
            }
        }
    }
}

/// The nibbles named by a hex-prefix encoded path: the low half of the flag
/// byte when the count is odd, then both halves of every later byte.
pub open spec fn hp_tail(hp: Seq<u8>, odd: bool) -> Seq<u8> {
    (if odd {
        seq![(hp[0] & 0xf) as u8]
    } else {
        Seq::<u8>::empty()
    }) + nibbles_of_bytes(hp.drop_first())
}

/// The effect of a branch node: sibling digests placed, one nibble of the
/// key consumed.
pub open spec fn branch_outcome(
    m0: Map<Seq<u8>, EntryView>,
    key: Seq<u8>,
    consumed: int,
    items: Seq<Seq<u8>>,
) -> (Map<Seq<u8>, EntryView>, int, Option<ProofError>) {
    if consumed >= 64 {
        (m0, consumed, Some(ProofError::MalformedNode))
    } else {
        let step = place_siblings(m0, key, consumed, key[consumed], items, 16);
        if step.1 is Some {
            (step.0, consumed, step.1)
        } else {
            (step.0, consumed + 1, None)
        }
    }
}

/// The effect of an extension or leaf node: its hex-prefix path is checked
/// against the key, and a leaf's value lands at the full key path when the
/// key holds one.
pub open spec fn pair_outcome(
    m0: Map<Seq<u8>, EntryView>,
    key: Seq<u8>,
    consumed: int,
    items: Seq<Seq<u8>>,
    value_exists: bool,
) -> (Map<Seq<u8>, EntryView>, int, Option<ProofError>) {
    let hp = items[0];
    if hp.len() == 0 {
        (m0, consumed, Some(ProofError::MalformedNode))
    } else if hp[0] >> 4 > 3 {
        (m0, consumed, Some(ProofError::MalformedNode))
    } else {
        let flag = hp[0] >> 4;
        let odd = flag == 1 || flag == 3;
        let is_leaf = flag >= 2;
        let path = hp_tail(hp, odd);
        if consumed + path.len() > 64 {
            (m0, consumed, Some(ProofError::PathMismatch))
        } else if path != key.subrange(consumed, consumed + path.len()) {
            (m0, consumed, Some(ProofError::PathMismatch))
        } else {
            let c2 = consumed + path.len() as int;
            if is_leaf && value_exists {
                if c2 != 64 {
                    (m0, c2, Some(ProofError::PathMismatch))
                } else {
                    let m2 = if blocked(m0, key) {
                        m0
                    } else {
                        m0.insert(key, EntryView::Value(items[1]))
                    };
                    (m2, c2, None)
                }
            } else {
                (m0, c2, None)
            }
        }
    }
}

/// The effect of one proof node at depth `consumed`: the new skeleton
/// contents, the new depth, and the error if the node is refused.
pub open spec fn replay_node(
    m: Map<Seq<u8>, EntryView>,
    key: Seq<u8>,
    consumed: int,
    node: Seq<u8>,
    value_exists: bool,
) -> (Map<Seq<u8>, EntryView>, int, Option<ProofError>) {
    match rlp_strings_of(node) {
        None => (m, consumed, Some(ProofError::MalformedNode)),
        Some(items) => {
            let m0 = clear_digest_model(m, key.take(consumed));
            if items.len() == 17 {
                branch_outcome(m0, key, consumed, items)
            } else if items.len() == 2 {
                pair_outcome(m0, key, consumed, items, value_exists)
            } else {
                (m0, consumed, Some(ProofError::MalformedNode))
            }
        },
    }
}

/// What `replay_node` says of a decoded branch node.
proof fn lemma_replay_node_branch(
    m: Map<Seq<u8>, EntryView>,
    key: Seq<u8>,
    consumed: int,
    node: Seq<u8>,
    ss: Seq<Seq<u8>>,
    value_exists: bool,
)
    requires
        rlp_strings_of(node) == Some(ss),
        ss.len() == 17,
    ensures
        replay_node(m, key, consumed, node, value_exists) == branch_outcome(
            clear_digest_model(m, key.take(consumed)),
            key,
            consumed,
            ss,
        ),
{
}

/// What `replay_node` says of a decoded extension or leaf node.
proof fn lemma_replay_node_pair(
    m: Map<Seq<u8>, EntryView>,
    key: Seq<u8>,
    consumed: int,
    node: Seq<u8>,
    ss: Seq<Seq<u8>>,
    value_exists: bool,
)
    requires
        rlp_strings_of(node) == Some(ss),
        ss.len() == 2,
    ensures
        replay_node(m, key, consumed, node, value_exists) == pair_outcome(
            clear_digest_model(m, key.take(consumed)),
            key,
            consumed,
            ss,
            value_exists,
        ),
{
}

/// Replaying a node sequence in order, root first; the first refused node
/// stops the walk with the contents as they stand.
pub open spec fn replay_nodes(
    m: Map<Seq<u8>, EntryView>,
    key: Seq<u8>,
    nodes: Seq<Seq<u8>>,
    value_exists: bool,
) -> (Map<Seq<u8>, EntryView>, int, Option<ProofError>)
    decreases nodes.len(),
{
    if nodes.len() == 0 {
        (m, 0, None)
    } else {
        let (m1, c1, e1) = replay_nodes(m, key, nodes.drop_last(), value_exists);
        if e1 is Some {
            (m1, c1, e1)
        } else {
            replay_node(m1, key, c1, nodes.last(), value_exists)
        }
    }
}

/// The byte strings a vector of byte vectors stands for.
pub open spec fn views_of(s: Seq<Vec<u8>>) -> Seq<Seq<u8>> {
    Seq::new(s.len(), |i: int| s[i]@)
}

/// Once a prefix of the walk is refused, the whole walk is.
proof fn lemma_replay_error_stable(
    m: Map<Seq<u8>, EntryView>,
    key: Seq<u8>,
    nodes: Seq<Seq<u8>>,
    value_exists: bool,
    k: int,
)
    requires
        0 <= k <= nodes.len(),
        replay_nodes(m, key, nodes.take(k), value_exists).2 is Some,
    ensures
        replay_nodes(m, key, nodes, value_exists) == replay_nodes(
            m,
            key,
            nodes.take(k),
            value_exists,
        ),
    decreases nodes.len(),
{
    if k == nodes.len() {
        assert(nodes.take(k) =~= nodes);
    } else {
        assert(nodes.len() > 0);
        assert(nodes.drop_last().take(k) =~= nodes.take(k));
        lemma_replay_error_stable(m, key, nodes.drop_last(), value_exists, k);
    }
}

/// The nibbles of a hex-prefix byte string, built as a path.
#[verifier::loop_isolation(false)]
fn hp_suffix_nibbles(hp: &Vec<u8>, odd: bool) -> (r: NibblePath)
    requires
        hp@.len() >= 1,
        (if odd { 1int } else { 0int }) + 2 * (hp@.len() - 1) <= 64,
    ensures
        r.wf(),
        r@ == hp_tail(hp@, odd),
{
    let mut out = NibblePath::empty();
    if odd {
        let b = hp[0];
        assert((b & 0xf) < 16) by (bit_vector);
        out.push_back(b & 0xf);
    }
    let ghost first: Seq<u8> = if odd { seq![(hp@[0] & 0xf) as u8] } else { Seq::<u8>::empty() };
    proof {
        assert(out@ =~= first + nibbles_of_bytes(hp@.drop_first().take(0)));
    }
    let n = hp.len();
    let mut i: usize = 1;
    while i < n
        invariant
            1 <= i <= n,
            n == hp@.len(),
            (if odd { 1int } else { 0int }) + 2 * (n - 1) <= 64,
            out.wf(),
            out@ == first + nibbles_of_bytes(hp@.drop_first().take(i - 1)),
        decreases n - i,
    {
        let b = hp[i];
        assert((b >> 4) < 16 && (b & 0xf) < 16) by (bit_vector);
        assert(out@.len() + 2 <= 64) by {
            assert(nibbles_of_bytes(hp@.drop_first().take(i - 1)).len() == 2 * (i - 1));
            assert(first.len() <= 1);
        }
        out.push_back(b >> 4);
        out.push_back(b & 0xf);
        proof {
            assert(hp@.drop_first().take(i - 1).push(b) =~= hp@.drop_first().take(i as int));
            assert((first + nibbles_of_bytes(hp@.drop_first().take(i - 1))).push(b >> 4).push(
                b & 0xf,
            ) =~= first + nibbles_of_bytes(hp@.drop_first().take(i as int)));
        }
        i = i + 1;
    }
    proof {
        assert(hp@.drop_first().take(n - 1) =~= hp@.drop_first());
    }
    out
}

/// One step of the walk: the node at `idx` applied to the state the prefix
/// reached.
proof fn lemma_replay_step(
    m: Map<Seq<u8>, EntryView>,
    key: Seq<u8>,
    nodes: Seq<Seq<u8>>,
    value_exists: bool,
    idx: int,
    pre_triple: (Map<Seq<u8>, EntryView>, int, Option<ProofError>),
    node_triple: (Map<Seq<u8>, EntryView>, int, Option<ProofError>),
)
    requires
        0 <= idx < nodes.len(),
        replay_nodes(m, key, nodes.take(idx), value_exists) == pre_triple,
        pre_triple.2 is None,
        replay_node(pre_triple.0, key, pre_triple.1, nodes[idx], value_exists) == node_triple,
    ensures
        replay_nodes(m, key, nodes.take(idx + 1), value_exists) == node_triple,
{
    assert(nodes.take(idx + 1).drop_last() =~= nodes.take(idx));
    assert(nodes.take(idx + 1).last() == nodes[idx]);
}

/// Replays one `eth_getProof`-style proof, ordered root to target, into the
/// shared trie skeleton, consuming the hashed key's nibbles on the way
/// down. Sibling digests land where no earlier proof has expanded; when
/// `value_exists` is false (the key is proven absent) no leaf value is ever
/// written. A node that does not descend toward `key`, or has an
/// unsupported shape, is refused and the walk stops.
#[verifier::loop_isolation(false)]
#[verifier::rlimit(60)]
pub fn insert_proof(
    trie: &mut TrieSkeleton,
    key: &Vec<u8>,
    proof: &Vec<Vec<u8>>,
    value_exists: bool,
) -> (r: Result<(), ProofError>)
    requires
        old(trie).wf(),
        key@.len() == 32,
    ensures
        final(trie).wf(),
        ({
            let out = replay_nodes(
                old(trie)@,
                nibbles_of_bytes(key@),
                views_of(proof@),
                value_exists,
            );
            &&& final(trie)@ == out.0
            &&& match r {
                Ok(_) => out.2 is None,
                Err(e) => out.2 == Some(e),
            }
        }),
{
    let ghost key_n: Seq<u8> = nibbles_of_bytes(key@);
    let ghost nodes: Seq<Seq<u8>> = views_of(proof@);
    let key_path = NibblePath::from_bytes(key.as_slice());
    let num = proof.len();
    let mut idx: usize = 0;
    let mut consumed: usize = 0;
    while idx < num
        invariant
            trie.wf(),
            key_path.wf(),
            key_path@ == key_n,
            key_n.len() == 64,
            valid_path(key_n),
            consumed <= 64,
            num == proof@.len(),
            idx <= num,
            nodes == views_of(proof@),
            replay_nodes(old(trie)@, key_n, nodes.take(idx as int), value_exists) == (
                trie@,
                consumed as int,
                Option::<ProofError>::None,
            ),
        decreases num - idx,
    {
        let ghost pre = trie@;
        let ghost pre_consumed = consumed as int;
        let ghost pre_triple = (pre, pre_consumed, Option::<ProofError>::None);
        proof {
            assert(nodes[idx as int] == proof@[idx as int]@);
        }
        let items_opt = decode_node_items(&proof[idx]);
        let items = match items_opt {
            None => {
                proof {
                    assert(replay_node(pre, key_n, pre_consumed, nodes[idx as int], value_exists)
                        == (pre, pre_consumed, Some(ProofError::MalformedNode)));
                    lemma_replay_step(
                        old(trie)@,
                        key_n,
                        nodes,
                        value_exists,
                        idx as int,
                        pre_triple,
                        (pre, pre_consumed, Some(ProofError::MalformedNode)),
                    );
                    lemma_replay_error_stable(old(trie)@, key_n, nodes, value_exists, idx + 1);
                }
                return Err(ProofError::MalformedNode);
            },
            Some(items) => items,
        };
        let ghost ss = rlp_strings_of(nodes[idx as int])->Some_0;
        proof {
            assert(rlp_strings_of(nodes[idx as int]) == Some(ss));
        }
        let cur = key_path.prefix(consumed);
        trie.clear_digest_at(&cur);
        let ghost m0 = trie@;
        proof {
            assert(cur@ == key_n.take(pre_consumed));
            assert(m0 == clear_digest_model(pre, key_n.take(pre_consumed)));
        }
        if items.len() == 17 {
            proof {
                lemma_replay_node_branch(pre, key_n, pre_consumed, nodes[idx as int], ss, value_exists);
            }
            if consumed == 64 {
                proof {
                    assert(branch_outcome(m0, key_n, pre_consumed, ss) == (
                        m0,
                        pre_consumed,
                        Some(ProofError::MalformedNode),
                    ));
                    lemma_replay_step(
                        old(trie)@,
                        key_n,
                        nodes,
                        value_exists,
                        idx as int,
                        pre_triple,
                        (m0, pre_consumed, Some(ProofError::MalformedNode)),
                    );
                    lemma_replay_error_stable(old(trie)@, key_n, nodes, value_exists, idx + 1);
                }
                return Err(ProofError::MalformedNode);
            }
            let nib = key_path.nibble_at(consumed);
            let mut i: usize = 0;
            while i < 16
                invariant
                    trie.wf(),
                    i <= 16,
                    consumed < 64,
                    nib == key_n[consumed as int],
                    items@.len() == 17,
                    ss.len() == 17,
                    forall|j: int| 0 <= j < items@.len() ==> items@[j]@ == ss[j],
                    place_siblings(m0, key_n, consumed as int, nib, ss, i as int) == (
                        trie@,
                        Option::<ProofError>::None,
                    ),
                decreases 16 - i,
            {
                if i != nib as usize {
                    let reflen = items[i].len();
                    if reflen > 0 {
                        if reflen != 32 {
                            proof {
                                assert(ss[i as int] == items@[i as int]@);
                                assert(place_siblings(
                                    m0,
                                    key_n,
                                    consumed as int,
                                    nib,
                                    ss,
                                    i + 1 as int,
                                ) == (trie@, Some(ProofError::MalformedNode)));
                                lemma_siblings_error_stable(
                                    m0,
                                    key_n,
                                    consumed as int,
                                    nib,
                                    ss,
                                    i + 1 as int,
                                    16,
                                );
                                assert(key_n[pre_consumed] == nib);
                                assert(branch_outcome(m0, key_n, pre_consumed, ss) == (
                                    trie@,
                                    pre_consumed,
                                    Some(ProofError::MalformedNode),
                                ));
                                lemma_replay_step(
                                    old(trie)@,
                                    key_n,
                                    nodes,
                                    value_exists,
                                    idx as int,
                                    pre_triple,
                                    (trie@, pre_consumed, Some(ProofError::MalformedNode)),
                                );
                                lemma_replay_error_stable(
                                    old(trie)@,
                                    key_n,
                                    nodes,
                                    value_exists,
                                    idx + 1,
                                );
                            }
                            return Err(ProofError::MalformedNode);
                        }
                        let mut q = key_path.prefix(consumed);
                        q.push_back(i as u8);
                        trie.insert_digest_if_free(&q, &items[i]);
                        proof {
                            assert(q@ == key_n.take(consumed as int).push(i as u8));
                            assert(ss[i as int] == items@[i as int]@);
                        }
                    }
                }
                proof {
                    assert(place_siblings(m0, key_n, consumed as int, nib, ss, i + 1 as int) == (
                        trie@,
                        Option::<ProofError>::None,
                    ));
                }
                i = i + 1;
            }
            consumed = consumed + 1;
            proof {
                assert(key_n[pre_consumed] == nib);
                assert(branch_outcome(m0, key_n, pre_consumed, ss) == (
                    trie@,
                    consumed as int,
                    Option::<ProofError>::None,
                ));
                lemma_replay_step(
                    old(trie)@,
                    key_n,
                    nodes,
                    value_exists,
                    idx as int,
                    pre_triple,
                    (trie@, consumed as int, Option::<ProofError>::None),
                );
            }
        } else if items.len() == 2 {
            proof {
                lemma_replay_node_pair(pre, key_n, pre_consumed, nodes[idx as int], ss, value_exists);
                assert(ss[0] == items@[0]@);
                assert(ss[1] == items@[1]@);
            }
            let ghost hp = ss[0];
            let hplen = items[0].len();
            if hplen == 0 {
                proof {
                    assert(pair_outcome(m0, key_n, pre_consumed, ss, value_exists) == (
                        m0,
                        pre_consumed,
                        Some(ProofError::MalformedNode),
                    ));
                    lemma_replay_step(
                        old(trie)@,
                        key_n,
                        nodes,
                        value_exists,
                        idx as int,
                        pre_triple,
                        (m0, pre_consumed, Some(ProofError::MalformedNode)),
                    );
                    lemma_replay_error_stable(old(trie)@, key_n, nodes, value_exists, idx + 1);
                }
                return Err(ProofError::MalformedNode);
            }
            let flag = items[0][0] >> 4;
            if flag > 3 {
                proof {
                    assert(pair_outcome(m0, key_n, pre_consumed, ss, value_exists) == (
                        m0,
                        pre_consumed,
                        Some(ProofError::MalformedNode),
                    ));
                    lemma_replay_step(
                        old(trie)@,
                        key_n,
                        nodes,
                        value_exists,
                        idx as int,
                        pre_triple,
                        (m0, pre_consumed, Some(ProofError::MalformedNode)),
                    );
                    lemma_replay_error_stable(old(trie)@, key_n, nodes, value_exists, idx + 1);
                }
                return Err(ProofError::MalformedNode);
            }
            let odd = flag == 1 || flag == 3;
            let is_leaf = flag >= 2;
            let ghost path: Seq<u8> = hp_tail(hp, odd);
            proof {
                assert(path.len() == (if odd { 1int } else { 0int }) + 2 * (hp.len() - 1));
            }
            if hplen - 1 > 32 || consumed + 2 * (hplen - 1) + (if odd { 1 } else { 0 }) > 64 {
                proof {
                    assert(pre_consumed + path.len() > 64);
                    assert(pair_outcome(m0, key_n, pre_consumed, ss, value_exists) == (
                        m0,
                        pre_consumed,
                        Some(ProofError::PathMismatch),
                    ));
                    lemma_replay_step(
                        old(trie)@,
                        key_n,
                        nodes,
                        value_exists,
                        idx as int,
                        pre_triple,
                        (m0, pre_consumed, Some(ProofError::PathMismatch)),
                    );
                    lemma_replay_error_stable(old(trie)@, key_n, nodes, value_exists, idx + 1);
                }
                return Err(ProofError::PathMismatch);
            }
            let path_len = 2 * (hplen - 1) + (if odd { 1 } else { 0 });
            let p = hp_suffix_nibbles(&items[0], odd);
            let mut j: usize = 0;
            while j < path_len
                invariant
                    j <= path_len,
                    p.wf(),
                    p@ == path,
                    path.len() == path_len,
                    consumed + path_len <= 64,
                    forall|t: int| 0 <= t < j ==> path[t] == key_n[consumed + t],
                decreases path_len - j,
            {
                if p.nibble_at(j) != key_path.nibble_at(consumed + j) {
                    proof {
                        assert(path[j as int] != key_n.subrange(
                            pre_consumed,
                            pre_consumed + path.len(),
                        )[j as int]);
                        assert(path != key_n.subrange(pre_consumed, pre_consumed + path.len()));
                        assert(pair_outcome(m0, key_n, pre_consumed, ss, value_exists) == (
                            m0,
                            pre_consumed,
                            Some(ProofError::PathMismatch),
                        ));
                        lemma_replay_step(
                            old(trie)@,
                            key_n,
                            nodes,
                            value_exists,
                            idx as int,
                            pre_triple,
                            (m0, pre_consumed, Some(ProofError::PathMismatch)),
                        );
                        lemma_replay_error_stable(old(trie)@, key_n, nodes, value_exists, idx + 1);
                    }
                    return Err(ProofError::PathMismatch);
                }
                j = j + 1;
            }
            proof {
                assert(path =~= key_n.subrange(pre_consumed, pre_consumed + path.len()));
            }
            consumed = consumed + path_len;
            if is_leaf && value_exists {
                if consumed != 64 {
                    proof {
                        assert(pair_outcome(m0, key_n, pre_consumed, ss, value_exists) == (
                            m0,
                            consumed as int,
                            Some(ProofError::PathMismatch),
                        ));
                        lemma_replay_step(
                            old(trie)@,
                            key_n,
                            nodes,
                            value_exists,
                            idx as int,
                            pre_triple,
                            (m0, consumed as int, Some(ProofError::PathMismatch)),
                        );
                        lemma_replay_error_stable(old(trie)@, key_n, nodes, value_exists, idx + 1);
                    }
                    return Err(ProofError::PathMismatch);
                }
                trie.insert_value_at(&key_path, &items[1]);
                proof {
                    assert(key_path@ == key_n);
                    assert(pair_outcome(m0, key_n, pre_consumed, ss, value_exists) == (
                        trie@,
                        consumed as int,
                        Option::<ProofError>::None,
                    ));
                }
            } else {
                proof {
                    assert(pair_outcome(m0, key_n, pre_consumed, ss, value_exists) == (
                        trie@,
                        consumed as int,
                        Option::<ProofError>::None,
                    ));
                }
            }
            proof {
                lemma_replay_step(
                    old(trie)@,
                    key_n,
                    nodes,
                    value_exists,
                    idx as int,
                    pre_triple,
                    (trie@, consumed as int, Option::<ProofError>::None),
                );
            }
        } else {
            proof {
                assert(ss.len() != 17 && ss.len() != 2);
                assert(replay_node(pre, key_n, pre_consumed, nodes[idx as int], value_exists) == (
                    m0,
                    pre_consumed,
                    Some(ProofError::MalformedNode),
                ));
                lemma_replay_step(
                    old(trie)@,
                    key_n,
                    nodes,
                    value_exists,
                    idx as int,
                    pre_triple,
                    (m0, pre_consumed, Some(ProofError::MalformedNode)),
                );
                lemma_replay_error_stable(old(trie)@, key_n, nodes, value_exists, idx + 1);
            }
            return Err(ProofError::MalformedNode);
        }
        idx = idx + 1;
    }
    proof {
        assert(nodes.take(num as int) =~= nodes);
    }
    Ok(())
}


/// Once an index is refused while placing siblings, later indexes change
/// nothing.
proof fn lemma_siblings_error_stable(
    m: Map<Seq<u8>, EntryView>,
    key: Seq<u8>,
    consumed: int,
    n: u8,
    items: Seq<Seq<u8>>,
    k: int,
    upto: int,
)
    requires
        0 <= k <= upto,
        place_siblings(m, key, consumed, n, items, k).1 is Some,
    ensures
        place_siblings(m, key, consumed, n, items, upto) == place_siblings(
            m,
            key,
            consumed,
            n,
            items,
            k,
        ),
    decreases upto,
{
    if k < upto {
        lemma_siblings_error_stable(m, key, consumed, n, items, k, upto - 1);
    }
}


/// Clearing a digest never touches a completed leaf.
proof fn lemma_clear_values(m: Map<Seq<u8>, EntryView>, q: Seq<u8>)
    ensures
        values_of(clear_digest_model(m, q)) =~= values_of(m),
{
}

/// Placing sibling digests never touches a completed leaf: a digest lands
/// only on a line nothing claims.
proof fn lemma_place_values(
    m: Map<Seq<u8>, EntryView>,
    key: Seq<u8>,
    consumed: int,
    n: u8,
    items: Seq<Seq<u8>>,
    upto: int,
)
    ensures
        values_of(place_siblings(m, key, consumed, n, items, upto).0) =~= values_of(m),
    decreases upto,
{
    if upto > 0 {
        lemma_place_values(m, key, consumed, n, items, upto - 1);
        let step = place_siblings(m, key, consumed, n, items, upto - 1);
        let m1 = step.0;
        let i = upto - 1;
        if step.1 is None && i != n as int && items[i].len() == 32 {
            let q = key.take(consumed).push(i as u8);
            if !overlaps(m1, q) {
                assert(!m1.contains_key(q)) by {
                    crate::skeleton::lemma_prefix_refl(q);
                }
                assert(values_of(m1.insert(q, EntryView::Digest(items[i]))) =~= values_of(m1));
            }
        }
    }
}

/// Equal completed leaves carry depth across.
proof fn lemma_depth_carries(a: Map<Seq<u8>, EntryView>, b: Map<Seq<u8>, EntryView>)
    requires
        values_of(a) == values_of(b),
        values_full_depth(b),
    ensures
        values_full_depth(a),
{
    assert forall|p: Seq<u8>| a.contains_key(p) && a[p] is Value implies p.len() == 64 by {
        assert(values_of(a).contains_key(p));
        assert(values_of(b).contains_key(p));
    }
}

/// One node's effect on the completed leaves: none when the key is proven
/// absent; and a leaf lands only at the full 64-nibble key path.
proof fn lemma_replay_node_values(
    m: Map<Seq<u8>, EntryView>,
    key: Seq<u8>,
    consumed: int,
    node: Seq<u8>,
    value_exists: bool,
)
    ensures
        !value_exists ==> values_of(replay_node(m, key, consumed, node, value_exists).0)
            =~= values_of(m),
        key.len() == 64 && values_full_depth(m) ==> values_full_depth(
            replay_node(m, key, consumed, node, value_exists).0,
        ),
{
    match rlp_strings_of(node) {
        None => {},
        Some(items) => {
            let m0 = clear_digest_model(m, key.take(consumed));
            lemma_clear_values(m, key.take(consumed));
            if values_full_depth(m) {
                lemma_depth_carries(m0, m);
            }
            if items.len() == 17 {
                if consumed < 64 {
                    lemma_place_values(m0, key, consumed, key[consumed], items, 16);
                    if values_full_depth(m) {
                        lemma_depth_carries(
                            place_siblings(m0, key, consumed, key[consumed], items, 16).0,
                            m0,
                        );
                    }
                }
            } else if items.len() == 2 {
                let out = pair_outcome(m0, key, consumed, items, value_exists);
                if key.len() == 64 && values_full_depth(m) {
                    assert forall|p: Seq<u8>| out.0.contains_key(p) && out.0[p] is Value implies p.len()
                        == 64 by {
                        if p != key {
                            assert(m0.contains_key(p) && m0[p] is Value);
                        }
                    }
                }
            }
        },
    }
}

/// The law that an absence proof inserts no leaf: replaying any proof with
/// `value_exists` false leaves the completed leaves of the skeleton exactly
/// as they were; only digest skeleton moves.
pub proof fn lemma_absence_inserts_no_leaf(
    m: Map<Seq<u8>, EntryView>,
    key: Seq<u8>,
    nodes: Seq<Seq<u8>>,
)
    ensures
        values_of(replay_nodes(m, key, nodes, false).0) =~= values_of(m),
    decreases nodes.len(),
{
    if nodes.len() > 0 {
        lemma_absence_inserts_no_leaf(m, key, nodes.drop_last());
        let pre = replay_nodes(m, key, nodes.drop_last(), false);
        if pre.2 is None {
            lemma_replay_node_values(pre.0, key, pre.1, nodes.last(), false);
        }
    }
}

/// A guarded merge: an entry lands at `q` unless the line through `q` is
/// already claimed. This is exactly how a digest placeholder enters the
/// skeleton.
pub open spec fn guarded_place(
    m: Map<Seq<u8>, EntryView>,
    q: Seq<u8>,
    e: EntryView,
) -> Map<Seq<u8>, EntryView> {
    if overlaps(m, q) {
        m
    } else {
        m.insert(q, e)
    }
}

/// A guarded leaf write: the value lands at `q`, overwriting a same-path
/// entry, unless a distinct stored path claims the line. This is exactly
/// how a completed leaf enters the skeleton.
pub open spec fn guarded_write(
    m: Map<Seq<u8>, EntryView>,
    q: Seq<u8>,
    v: Seq<u8>,
) -> Map<Seq<u8>, EntryView> {
    if blocked(m, q) {
        m
    } else {
        m.insert(q, EntryView::Value(v))
    }
}

/// Changing the map at a line not prefix-related to `q` moves neither of
/// the guards at `q`.
proof fn lemma_guards_frame(m: Map<Seq<u8>, EntryView>, k: Seq<u8>, e: EntryView, q: Seq<u8>)
    requires
        !is_prefix(k, q),
        !is_prefix(q, k),
    ensures
        overlaps(m.insert(k, e), q) == overlaps(m, q),
        overlaps(m.remove(k), q) == overlaps(m, q),
        blocked(m.insert(k, e), q) == blocked(m, q),
        blocked(m.remove(k), q) == blocked(m, q),
{
    if overlaps(m.insert(k, e), q) {
        let p = choose|p: Seq<u8>|
            m.insert(k, e).contains_key(p) && (is_prefix(p, q) || is_prefix(q, p));
        assert(p != k);
        assert(m.contains_key(p));
    }
    if overlaps(m, q) {
        let p = choose|p: Seq<u8>| m.contains_key(p) && (is_prefix(p, q) || is_prefix(q, p));
        assert(p != k);
        assert(m.insert(k, e).contains_key(p));
        assert(m.remove(k).contains_key(p));
    }
    if overlaps(m.remove(k), q) {
        let p = choose|p: Seq<u8>|
            m.remove(k).contains_key(p) && (is_prefix(p, q) || is_prefix(q, p));
        assert(m.contains_key(p));
    }
    if blocked(m.insert(k, e), q) {
        let p = choose|p: Seq<u8>|
            m.insert(k, e).contains_key(p) && p != q && (is_prefix(p, q) || is_prefix(q, p));
        assert(p != k);
        assert(m.contains_key(p));
    }
    if blocked(m, q) {
        let p = choose|p: Seq<u8>|
            m.contains_key(p) && p != q && (is_prefix(p, q) || is_prefix(q, p));
        assert(p != k);
        assert(m.insert(k, e).contains_key(p));
        assert(m.remove(k).contains_key(p));
    }
    if blocked(m.remove(k), q) {
        let p = choose|p: Seq<u8>|
            m.remove(k).contains_key(p) && p != q && (is_prefix(p, q) || is_prefix(q, p));
        assert(m.contains_key(p));
    }
}

/// The merge non-interference law at the level of the primitive merges:
/// on two lines of the trie that do not sit on one descent line, the
/// guarded digest placement, the digest clearing and the guarded leaf
/// write all commute, in any pairing. One proof's merges on its own
/// subtree can neither disturb nor be disturbed by another proof's merges
/// on a disjoint subtree.
pub proof fn lemma_disjoint_lines_commute(
    m: Map<Seq<u8>, EntryView>,
    q1: Seq<u8>,
    q2: Seq<u8>,
    e1: EntryView,
    e2: EntryView,
    v1: Seq<u8>,
    v2: Seq<u8>,
)
    requires
        !is_prefix(q1, q2),
        !is_prefix(q2, q1),
    ensures
        guarded_place(guarded_place(m, q1, e1), q2, e2) == guarded_place(
            guarded_place(m, q2, e2),
            q1,
            e1,
        ),
        clear_digest_model(clear_digest_model(m, q1), q2) == clear_digest_model(
            clear_digest_model(m, q2),
            q1,
        ),
        guarded_place(clear_digest_model(m, q1), q2, e2) == clear_digest_model(
            guarded_place(m, q2, e2),
            q1,
        ),
        guarded_write(guarded_write(m, q1, v1), q2, v2) == guarded_write(
            guarded_write(m, q2, v2),
            q1,
            v1,
        ),
        guarded_write(clear_digest_model(m, q1), q2, v2) == clear_digest_model(
            guarded_write(m, q2, v2),
            q1,
        ),
        guarded_write(guarded_place(m, q1, e1), q2, v2) == guarded_place(
            guarded_write(m, q2, v2),
            q1,
            e1,
        ),
{
    assert(q1 != q2) by {
        if q1 == q2 {
            crate::skeleton::lemma_prefix_refl(q1);
        }
    }
    lemma_guards_frame(m, q1, e1, q2);
    lemma_guards_frame(m, q2, e2, q1);
    lemma_guards_frame(m, q1, EntryView::Value(v1), q2);
    lemma_guards_frame(m, q2, EntryView::Value(v2), q1);
    if m.contains_key(q1) && m[q1] is Digest {
        lemma_guards_frame(m.remove(q1), q2, e2, q1);
        lemma_guards_frame(m.remove(q1), q2, EntryView::Value(v2), q1);
    }
    if m.contains_key(q2) && m[q2] is Digest {
        lemma_guards_frame(m.remove(q2), q1, e1, q2);
        lemma_guards_frame(m.remove(q2), q1, EntryView::Value(v1), q2);
    }
    assert(guarded_place(guarded_place(m, q1, e1), q2, e2) =~= guarded_place(
        guarded_place(m, q2, e2),
        q1,
        e1,
    ));
    assert(clear_digest_model(clear_digest_model(m, q1), q2) =~= clear_digest_model(
        clear_digest_model(m, q2),
        q1,
    ));
    assert(guarded_place(clear_digest_model(m, q1), q2, e2) =~= clear_digest_model(
        guarded_place(m, q2, e2),
        q1,
    ));
    assert(guarded_write(guarded_write(m, q1, v1), q2, v2) =~= guarded_write(
        guarded_write(m, q2, v2),
        q1,
        v1,
    ));
    assert(guarded_write(clear_digest_model(m, q1), q2, v2) =~= clear_digest_model(
        guarded_write(m, q2, v2),
        q1,
    ));
    assert(guarded_write(guarded_place(m, q1, e1), q2, v2) =~= guarded_place(
        guarded_write(m, q2, v2),
        q1,
        e1,
    ));
}

} // verus!
