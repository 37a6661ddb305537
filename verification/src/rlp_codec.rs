//! RLP at the proof boundary: decoding a raw trie node into its items, and
//! the canonical encoding of a 32-byte word, against which decoded storage
//! values are checked.

use vstd::prelude::*;

verus! {

/// Name for what RLP list decoding returns on a raw trie node: the node's
/// items as byte strings, or nothing when the bytes are not such a list.
/// A function of the input bytes alone.
pub uninterp spec fn rlp_strings_of(data: Seq<u8>) -> Option<Seq<Seq<u8>>>;

/// Relies on rlp::Rlp::as_list (through ethers' re-export): the items of an
/// RLP list of byte strings; an error for anything else.
#[verifier::external_body]
pub fn decode_node_items(data: &Vec<u8>) -> (r: Option<Vec<Vec<u8>>>)
    ensures
        match r {
            Some(items) => rlp_strings_of(data@) matches Some(ss) && ss.len() == items@.len()
                && (forall|i: int| 0 <= i < items@.len() ==> items@[i]@ == ss[i]),
            None => rlp_strings_of(data@) is None,
        },
{
    let decoder = ethers::utils::rlp::Rlp::new(data.as_slice());
    match decoder.as_list::<Vec<u8>>() {
        Ok(items) => Some(items),
        Err(_) => None,
    }
}

/// `v` with its leading zero bytes removed.
pub open spec fn be_trim(v: Seq<u8>) -> Seq<u8>
    decreases v.len(),
{
    if v.len() == 0 {
        v
    } else if v[0] == 0 {
        be_trim(v.drop_first())
    } else {
        v
    }
}

/// The canonical RLP encoding of an unsigned big-endian word of at most 55
/// bytes: leading zeros dropped, a single small byte stands alone, anything
/// else behind a length byte.
pub open spec fn rlp_of_word(v: Seq<u8>) -> Seq<u8> {
    let t = be_trim(v);
    if t.len() == 0 {
        seq![0x80u8]
    } else if t.len() == 1 && t[0] < 0x80 {
        t
    } else {
        seq![(0x80 + t.len()) as u8] + t
    }
}

/// Encodes a 32-byte word as canonical RLP.
pub fn rlp_encode_word(v: &Vec<u8>) -> (r: Vec<u8>)
    requires
        v@.len() == 32,
    ensures
        r@ == rlp_of_word(v@),
{
    let n = v.len();
    let mut start: usize = 0;
    while start < n && v[start] == 0
        invariant
            start <= n,
            n == v@.len(),
            forall|j: int| 0 <= j < start ==> v@[j] == 0,
        decreases n - start,
    {
        start = start + 1;
    }
    proof {
        lemma_be_trim_skip(v@, start as int);
    }
    let mut out: Vec<u8> = Vec::new();
    if start == n {
        out.push(0x80);
        proof {
            assert(out@ =~= seq![0x80u8]);
            assert(be_trim(v@).len() == 0);
        }
        return out;
    }
    let tail_len = n - start;
    if tail_len == 1 && v[start] < 0x80 {
        out.push(v[start]);
        proof {
            assert(be_trim(v@) =~= v@.skip(start as int));
            assert(out@ =~= be_trim(v@));
        }
        return out;
    }
    out.push(0x80 + (tail_len as u8));
    let mut i: usize = start;
    while i < n
        invariant
            start <= i <= n,
            n == v@.len(),
            out@ == seq![(0x80 + (n - start)) as u8].add(v@.subrange(start as int, i as int)),
        decreases n - i,
    {
        out.push(v[i]);
        proof {
            assert(v@.subrange(start as int, i as int).push(v@[i as int]) =~= v@.subrange(
                start as int,
                i + 1 as int,
            ));
            assert(out@ =~= seq![(0x80 + (n - start)) as u8].add(
                v@.subrange(start as int, i + 1 as int),
            ));
        }
        i = i + 1;
    }
    proof {
        assert(be_trim(v@) =~= v@.skip(start as int));
        assert(v@.subrange(start as int, n as int) =~= v@.skip(start as int));
        assert(out@ =~= seq![(0x80 + be_trim(v@).len()) as u8] + be_trim(v@));
    }
    out
}

/// Trimming from a run of leading zeros lands where the first nonzero sits.
proof fn lemma_be_trim_skip(v: Seq<u8>, k: int)
    requires
        0 <= k <= v.len(),
        forall|j: int| 0 <= j < k ==> v[j] == 0,
        k < v.len() ==> v[k] != 0,
    ensures
        be_trim(v) == v.skip(k),
    decreases k,
{
    if k == 0 {
        if v.len() > 0 {
            assert(v.skip(0) =~= v);
        } else {
            assert(v.skip(0) =~= v);
        }
    } else {
        assert(v[0] == 0);
        lemma_be_trim_skip(v.drop_first(), k - 1);
        assert(v.drop_first().skip(k - 1) =~= v.skip(k));
    }
}

} // verus!
