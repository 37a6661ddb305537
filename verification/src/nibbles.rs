//! Trie paths as ordered sequences of 4-bit symbols.

use vstd::prelude::*;

verus! {

/// Greatest number of nibbles in a trie path: a 32-byte key expands to 64.
pub const MAX_NIBBLES: usize = 64;

/// A sequence that can stand as a trie path: at most 64 symbols, each below 16.
pub open spec fn valid_path(s: Seq<u8>) -> bool {
    s.len() <= 64 && forall|i: int| 0 <= i < s.len() ==> s[i] < 16
}

/// The hex expansion of a byte sequence: two nibbles per byte, high half first.
pub open spec fn nibbles_of_bytes(bs: Seq<u8>) -> Seq<u8> {
    Seq::new(
        bs.len() * 2,
        |i: int|
            if i % 2 == 0 {
                (bs[i / 2] >> 4) as u8
            } else {
                (bs[i / 2] & 0xf) as u8
            },
    )
}

/// `p` is an initial segment of `q`.
pub open spec fn is_prefix(p: Seq<u8>, q: Seq<u8>) -> bool {
    p.len() <= q.len() && p == q.subrange(0, p.len() as int)
}

pub proof fn lemma_nibbles_of_bytes_valid(bs: Seq<u8>)
    requires
        bs.len() <= 32,
    ensures
        valid_path(nibbles_of_bytes(bs)),
{
    assert forall|i: int| 0 <= i < nibbles_of_bytes(bs).len() implies nibbles_of_bytes(bs)[i]
        < 16 by {
        let b = bs[i / 2];
        assert((b >> 4) < 16 && (b & 0xf) < 16) by (bit_vector);
    }
}

/// An ordered sequence of nibbles (values 0 to 15) used as a trie key,
/// always a prefix of some 32-byte key's hex expansion in length.
pub struct NibblePath {
    nibs: Vec<u8>,
}

impl View for NibblePath {
    type V = Seq<u8>;

    closed spec fn view(&self) -> Seq<u8> {
        self.nibs@
    }
}

impl NibblePath {
    /// Well-formedness: at most 64 nibbles, each below 16.
    pub open spec fn wf(self) -> bool {
        valid_path(self@)
    }

    /// The empty path.
    pub fn empty() -> (r: Self)
        ensures
            r.wf(),
            r@ == Seq::<u8>::empty(),
    {
        NibblePath { nibs: Vec::new() }
    }

    pub fn len(&self) -> (n: usize)
        ensures
            n == self@.len(),
    {
        self.nibs.len()
    }

    pub fn nibble_at(&self, i: usize) -> (n: u8)
        requires
            self.wf(),
            i < self@.len(),
        ensures
            n == self@[i as int],
            n < 16,
    {
        self.nibs[i]
    }

    /// Appends one nibble at the back.
    pub fn push_back(&mut self, n: u8)
        requires
            old(self).wf(),
            old(self)@.len() < 64,
            n < 16,
        ensures
            final(self).wf(),
            final(self)@ == old(self)@.push(n),
    {
        self.nibs.push(n);
    }

    /// The first `n` nibbles, as a fresh path.
    pub fn prefix(&self, n: usize) -> (r: Self)
        requires
            self.wf(),
            n <= self@.len(),
        ensures
            r.wf(),
            r@ == self@.take(n as int),
    {
        let mut out: Vec<u8> = Vec::new();
        let mut i: usize = 0;
        while i < n
            invariant
                i <= n,
                n <= self@.len(),
                valid_path(self@),
                out@ == self@.take(i as int),
            decreases n - i,
        {
            out.push(self.nibs[i]);
            proof {
                assert(self@.take(i as int).push(self@[i as int]) =~= self@.take(i + 1 as int));
            }
            i = i + 1;
        }
        NibblePath { nibs: out }
    }

    /// A copy of this path.
    pub fn duplicate(&self) -> (r: Self)
        requires
            self.wf(),
        ensures
            r.wf(),
            r@ == self@,
    {
        let r = self.prefix(self.len());
        proof {
            assert(r@ =~= self@);
        }
        r
    }

    /// The hex expansion of up to 32 bytes, high nibble of each byte first.
    pub fn from_bytes(key: &[u8]) -> (r: Self)
        requires
            key@.len() <= 32,
        ensures
            r.wf(),
            r@ == nibbles_of_bytes(key@),
    {
        let mut out: Vec<u8> = Vec::new();
        let n = key.len();
        let mut i: usize = 0;
        while i < n
            invariant
                i <= n,
                n == key@.len() <= 32,
                out@ == nibbles_of_bytes(key@.take(i as int)),
            decreases n - i,
        {
            let b = key[i];
            assert((b >> 4) < 16 && (b & 0xf) < 16) by (bit_vector);
            out.push(b >> 4);
            out.push(b & 0xf);
            proof {
                assert(nibbles_of_bytes(key@.take(i as int)).push(b >> 4).push(b & 0xf)
                    =~= nibbles_of_bytes(key@.take(i + 1 as int)));
            }
            i = i + 1;
        }
        proof {
            assert(key@.take(n as int) =~= key@);
            lemma_nibbles_of_bytes_valid(key@);
        }
        NibblePath { nibs: out }
    }

    /// Whether this path is an initial segment of `other`.
    pub fn is_prefix_of(&self, other: &NibblePath) -> (r: bool)
        ensures
            r == is_prefix(self@, other@),
    {
        if self.nibs.len() > other.nibs.len() {
            return false;
        }
        let n = self.nibs.len();
        let mut i: usize = 0;
        while i < n
            invariant
                i <= n,
                n == self@.len() <= other@.len(),
                forall|j: int| 0 <= j < i ==> self@[j] == other@[j],
            decreases n - i,
        {
            if self.nibs[i] != other.nibs[i] {
                assert(self@[i as int] != other@.subrange(0, n as int)[i as int]);
                return false;
            }
            i = i + 1;
        }
        proof {
            assert(self@ =~= other@.subrange(0, n as int));
        }
        true
    }

    /// Whether the two paths hold the same nibbles.
    pub fn eq_path(&self, other: &NibblePath) -> (r: bool)
        ensures
            r == (self@ == other@),
    {
        if self.nibs.len() != other.nibs.len() {
            return false;
        }
        let r = self.is_prefix_of(other);
        proof {
            if r {
                assert(self@ =~= other@);
            } else {
                assert(other@.subrange(0, other@.len() as int) =~= other@);
            }
        }
        r
    }

    /// The nibbles as plain bytes, one per nibble.
    pub fn to_vec(&self) -> (r: Vec<u8>)
        requires
            self.wf(),
        ensures
            r@ == self@,
    {
        let p = self.prefix(self.len());
        proof {
            assert(p@ =~= self@);
        }
        p.nibs
    }
}

} // verus!
