//! The contract-code map: Keccak-256 digest of code to the raw code bytes,
//! seeded with the digest of empty code so that accounts without code need
//! no fetch.

use vstd::prelude::*;

use crate::bytes::bytes_eq;
use crate::bytes::copy_bytes;
use crate::hashing::keccak;
use crate::hashing::keccak_of;

verus! {

/// One stored code entry: the digest and the raw bytes.
pub struct CodeEntry {
    pub digest: Vec<u8>,
    pub code: Vec<u8>,
}

/// The map an entry list stands for.
pub open spec fn code_map_of(s: Seq<CodeEntry>) -> Map<Seq<u8>, Seq<u8>>
    decreases s.len(),
{
    if s.len() == 0 {
        Map::empty()
    } else {
        code_map_of(s.drop_last()).insert(s.last().digest@, s.last().code@)
    }
}

proof fn lemma_code_map_contains(s: Seq<CodeEntry>, p: Seq<u8>)
    ensures
        code_map_of(s).contains_key(p) <==> exists|i: int|
            0 <= i < s.len() && s[i].digest@ == p,
    decreases s.len(),
{
    if s.len() > 0 {
        lemma_code_map_contains(s.drop_last(), p);
        if s.last().digest@ == p {
            assert(s[s.len() - 1].digest@ == p);
        } else {
            if code_map_of(s).contains_key(p) {
                let i = choose|i: int| 0 <= i < s.drop_last().len() && s.drop_last()[i].digest@ == p;
                assert(s[i].digest@ == p);
            }
            if exists|i: int| 0 <= i < s.len() && s[i].digest@ == p {
                let i = choose|i: int| 0 <= i < s.len() && s[i].digest@ == p;
                assert(s.drop_last()[i].digest@ == p);
            }
        }
    }
}

proof fn lemma_code_map_update(s: Seq<CodeEntry>, j: int, x: CodeEntry)
    requires
        0 <= j < s.len(),
        x.digest@ == s[j].digest@,
        forall|a: int, b: int|
            0 <= a < s.len() && 0 <= b < s.len() && a != b ==> s[a].digest@ != s[b].digest@,
    ensures
        code_map_of(s.update(j, x)) =~= code_map_of(s).insert(x.digest@, x.code@),
    decreases s.len(),
{
    if j == s.len() - 1 {
        assert(s.update(j, x).drop_last() =~= s.drop_last());
        assert(s.update(j, x).last() == x);
    } else {
        assert(s.update(j, x).drop_last() =~= s.drop_last().update(j, x));
        assert(s.update(j, x).last() == s.last());
        lemma_code_map_update(s.drop_last(), j, x);
        assert(s.last().digest@ != x.digest@);
    }
}

/// Code bytes by their Keccak-256 digest.
pub struct CodeMap {
    entries: Vec<CodeEntry>,
}

impl View for CodeMap {
    type V = Map<Seq<u8>, Seq<u8>>;

    closed spec fn view(&self) -> Map<Seq<u8>, Seq<u8>> {
        code_map_of(self.entries@)
    }
}

impl CodeMap {
    /// Well-formedness: digests distinct.
    pub open spec fn wf(self) -> bool {
        forall|a: int, b: int|
            0 <= a < self.entries_seq().len() && 0 <= b < self.entries_seq().len() && a != b
                ==> (#[trigger] self.entries_seq()[a]).digest@
                != (#[trigger] self.entries_seq()[b]).digest@
    }

    pub closed spec fn entries_seq(self) -> Seq<CodeEntry> {
        self.entries@
    }

    /// Distinctness of digests, phrased over the raw entry list.
    proof fn lemma_distinct(self)
        requires
            self.wf(),
        ensures
            forall|a: int, b: int|
                0 <= a < self.entries@.len() && 0 <= b < self.entries@.len() && a != b
                    ==> (#[trigger] self.entries@[a]).digest@ != (#[trigger] self.entries@[b]).digest@,
    {
        assert forall|a: int, b: int|
            0 <= a < self.entries@.len() && 0 <= b < self.entries@.len() && a
                != b implies (#[trigger] self.entries@[a]).digest@
            != (#[trigger] self.entries@[b]).digest@ by {
            assert(self.entries_seq()[a] == self.entries@[a]);
            assert(self.entries_seq()[b] == self.entries@[b]);
        }
    }

    /// A fresh map holding only the empty code under its digest.
    #[verifier::loop_isolation(false)]
    pub fn with_empty_code() -> (r: Self)
        ensures
            r.wf(),
            r@ == Map::<Seq<u8>, Seq<u8>>::empty().insert(
                keccak_of(Seq::<u8>::empty()),
                Seq::<u8>::empty(),
            ),
    {
        let empty: Vec<u8> = Vec::new();
        let d = keccak(empty.as_slice());
        let mut digest: Vec<u8> = Vec::new();
        let mut i: usize = 0;
        while i < 32
            invariant
                i <= 32,
                d@ == keccak_of(Seq::<u8>::empty()),
                digest@ == d@.take(i as int),
            decreases 32 - i,
        {
            digest.push(d[i]);
            proof {
                assert(d@.take(i as int).push(d@[i as int]) =~= d@.take(i + 1 as int));
            }
            i = i + 1;
        }
        proof {
            assert(d@.take(32) =~= d@);
        }
        let mut entries: Vec<CodeEntry> = Vec::new();
        entries.push(CodeEntry { digest, code: empty });
        let r = CodeMap { entries };
        proof {
            assert(digest@ == keccak_of(Seq::<u8>::empty()));
            assert(r.entries_seq().len() == 1);
            assert(r.entries_seq().drop_last() =~= Seq::<CodeEntry>::empty());
            assert(code_map_of(r.entries_seq().drop_last()) == Map::<Seq<u8>, Seq<u8>>::empty());
            assert(r.entries_seq().last().digest@ == keccak_of(Seq::<u8>::empty()));
            assert(r.entries_seq().last().code@ =~= Seq::<u8>::empty());
            assert(r@ =~= Map::<Seq<u8>, Seq<u8>>::empty().insert(
                keccak_of(Seq::<u8>::empty()),
                Seq::<u8>::empty(),
            ));
        }
        r
    }

    pub fn len(&self) -> (n: usize)
        ensures
            n == self.entries_seq().len(),
    {
        self.entries.len()
    }

    pub fn digest_at(&self, i: usize) -> (r: &Vec<u8>)
        requires
            0 <= i < self.entries_seq().len(),
        ensures
            r@ == self.entries_seq()[i as int].digest@,
    {
        &self.entries[i].digest
    }

    pub fn code_at(&self, i: usize) -> (r: &Vec<u8>)
        requires
            0 <= i < self.entries_seq().len(),
        ensures
            r@ == self.entries_seq()[i as int].code@,
    {
        &self.entries[i].code
    }

    /// The code stored under a digest, if any.
    #[verifier::loop_isolation(false)]
    pub fn lookup(&self, digest: &Vec<u8>) -> (r: Option<Vec<u8>>)
        requires
            self.wf(),
        ensures
            match r {
                Some(c) => self@.contains_key(digest@) && self@[digest@] == c@,
                None => !self@.contains_key(digest@),
            },
    {
        let n = self.entries.len();
        let mut i: usize = 0;
        while i < n
            invariant
                i <= n,
                n == self.entries_seq().len(),
                forall|j: int| 0 <= j < i ==> (#[trigger] self.entries_seq()[j]).digest@ != digest@,
            decreases n - i,
        {
            if bytes_eq(&self.entries[i].digest, digest) {
                proof {
                    self.lemma_distinct();
                    lemma_code_map_contains(self.entries@, digest@);
                    lemma_code_map_index_of(self.entries@, i as int);
                }
                return Some(copy_bytes(&self.entries[i].code));
            }
            i = i + 1;
        }
        proof {
            lemma_code_map_contains(self.entries@, digest@);
        }
        None
    }

    /// Stores code under its Keccak-256 digest, overwriting a same-digest
    /// entry.
    #[verifier::loop_isolation(false)]
    pub fn add_code(&mut self, code: Vec<u8>)
        requires
            old(self).wf(),
        ensures
            final(self).wf(),
            final(self)@ == old(self)@.insert(keccak_of(code@), code@),
    {
        let d = keccak(code.as_slice());
        let mut digest: Vec<u8> = Vec::new();
        let mut i: usize = 0;
        while i < 32
            invariant
                i <= 32,
                d@ == keccak_of(code@),
                digest@ == d@.take(i as int),
            decreases 32 - i,
        {
            digest.push(d[i]);
            proof {
                assert(d@.take(i as int).push(d@[i as int]) =~= d@.take(i + 1 as int));
            }
            i = i + 1;
        }
        proof {
            assert(d@.take(32) =~= d@);
        }
        let n = self.entries.len();
        let mut j: usize = 0;
        while j < n
            invariant
                j <= n,
                self.entries@ == old(self).entries@,
                forall|t: int|
                    0 <= t < j ==> (#[trigger] old(self).entries_seq()[t]).digest@ != digest@,
            decreases n - j,
        {
            if bytes_eq(&self.entries[j].digest, &digest) {
                let ghost old_digest = self.entries_seq()[j as int].digest@;
                let item = CodeEntry { digest, code };
                proof {
                    old(self).lemma_distinct();
                    lemma_code_map_update(self.entries@, j as int, item);
                }
                self.entries[j] = item;
                proof {
                    assert forall|a: int, b: int|
                        0 <= a < self.entries_seq().len() && 0 <= b < self.entries_seq().len() && a
                            != b implies (#[trigger] self.entries_seq()[a]).digest@
                        != (#[trigger] self.entries_seq()[b]).digest@ by {
                        assert(self.entries_seq()[a] == if a == j as int {
                            item
                        } else {
                            old(self).entries_seq()[a]
                        });
                        assert(self.entries_seq()[b] == if b == j as int {
                            item
                        } else {
                            old(self).entries_seq()[b]
                        });
                        assert(item.digest@ == old_digest);
                        assert(old(self).entries_seq()[a].digest@ != old(self).entries_seq()[b].digest@);
                    }
                }
                return ;
            }
            j = j + 1;
        }
        proof {
            old(self).lemma_distinct();
            lemma_code_map_contains(self.entries@, digest@);
        }
        let ghost pre = self.entries@;
        let item = CodeEntry { digest, code };
        self.entries.push(item);
        proof {
            assert(self.entries@.drop_last() =~= pre);
            assert forall|a: int, b: int|
                0 <= a < self.entries_seq().len() && 0 <= b < self.entries_seq().len() && a
                    != b implies (#[trigger] self.entries_seq()[a]).digest@
                != (#[trigger] self.entries_seq()[b]).digest@ by {
                if a < pre.len() && b < pre.len() {
                    assert(self.entries_seq()[a] == old(self).entries_seq()[a]);
                    assert(self.entries_seq()[b] == old(self).entries_seq()[b]);
                    assert(old(self).entries_seq()[a].digest@ != old(self).entries_seq()[b].digest@);
                } else if a == pre.len() as int && b < pre.len() {
                    assert(self.entries_seq()[a] == item);
                    assert(self.entries_seq()[b] == old(self).entries_seq()[b]);
                    assert(old(self).entries_seq()[b].digest@ != digest@);
                } else if b == pre.len() as int && a < pre.len() {
                    assert(self.entries_seq()[b] == item);
                    assert(self.entries_seq()[a] == old(self).entries_seq()[a]);
                    assert(old(self).entries_seq()[a].digest@ != digest@);
                }
            }
        }
    }
}

proof fn lemma_code_map_index_of(s: Seq<CodeEntry>, i: int)
    requires
        0 <= i < s.len(),
        forall|a: int, b: int|
            0 <= a < s.len() && 0 <= b < s.len() && a != b ==> (#[trigger] s[a]).digest@
                != (#[trigger] s[b]).digest@,
    ensures
        code_map_of(s).contains_key(s[i].digest@),
        code_map_of(s)[s[i].digest@] == s[i].code@,
    decreases s.len(),
{
    lemma_code_map_contains(s, s[i].digest@);
    if i < s.len() - 1 {
        assert(s.last().digest@ != s[i].digest@);
        assert(s.drop_last()[i] == s[i]);
        lemma_code_map_index_of(s.drop_last(), i);
    }
}

} // verus!
