//! The section chain: an append-only tree of BLS section keys rooted at the
//! genesis key, in which every key but the root is signed by its parent.
//!
//! The chain is kept here as a structure of the library's own, with its
//! keys, parent links and signatures in plain fields, rather than as an
//! opaque `secured_linked_list::SecuredLinkedList`: the section's invariant
//! (the SAP's key is in the chain, the chain verifies), the anti-entropy
//! proof chains and the merge laws are proved over exactly these fields.
//! Only the signature check is outside, through `bls_verify`.

use crate::bytes::{copy_byte_vecs, copy_bytes};
use crate::crypto::{bls_sig_valid, bls_verify};
use vstd::prelude::*;

verus! {

/// Why a chain operation was refused.
#[derive(Clone, Copy, Debug, PartialEq, Eq, Structural)]
pub enum ChainError {
    /// A key that the operation needs is not in the chain.
    KeyNotFound,
    /// A link's signature does not verify.
    InvalidSignature,
    /// The chains have different roots.
    Incompatible,
}

/// Keys in insertion order; `parents[i]` is the index of the key that signed
/// `keys[i]`, and `sigs[i]` that signature (the root's entries are unused).
#[derive(Clone, Debug)]
pub struct SectionChain {
    pub keys: Vec<Vec<u8>>,
    pub parents: Vec<usize>,
    pub sigs: Vec<Vec<u8>>,
}

impl SectionChain {
    /// Key `i` as bytes.
    pub open spec fn key(&self, i: int) -> Seq<u8> {
        self.keys@[i]@
    }

    pub open spec fn len_spec(&self) -> nat {
        self.keys@.len()
    }

    pub open spec fn root_spec(&self) -> Seq<u8> {
        self.key(0)
    }

    pub open spec fn last_spec(&self) -> Seq<u8> {
        self.key(self.keys@.len() - 1)
    }

    pub open spec fn parent(&self, i: int) -> int {
        self.parents@[i] as int
    }

    /// The chain holds `k`.
    pub open spec fn has(&self, k: Seq<u8>) -> bool {
        exists|i: int| 0 <= i < self.keys@.len() && #[trigger] self.key(i) == k
    }

    /// Structural well-formedness: a root, parents before children, no key twice.
    pub open spec fn wf(&self) -> bool {
        &&& self.keys@.len() >= 1
        &&& self.parents@.len() == self.keys@.len()
        &&& self.sigs@.len() == self.keys@.len()
        &&& forall|i: int| 1 <= i < self.keys@.len() ==> #[trigger] self.parent(i) < i
        &&& forall|i: int, j: int|
            0 <= i < self.keys@.len() && 0 <= j < self.keys@.len() && i != j ==> self.key(i)
                != self.key(j)
    }

    /// Link `i` verifies: its signature is its parent's signature of it.
    pub open spec fn link_valid(&self, i: int) -> bool {
        bls_sig_valid(self.key(self.parent(i)), self.key(i), self.sigs@[i]@)
    }

    /// Every link verifies.
    pub open spec fn valid(&self) -> bool {
        forall|i: int| 1 <= i < self.keys@.len() ==> #[trigger] self.link_valid(i)
    }

    /// The keys of `self` stand, in the same order, at the start of `other`'s
    /// keys, with the same parents and signatures.
    pub open spec fn is_prefix_of(&self, other: &SectionChain) -> bool {
        &&& self.keys@.len() <= other.keys@.len()
        &&& forall|i: int| 0 <= i < self.keys@.len() ==> #[trigger] other.key(i) == self.key(i)
        &&& forall|i: int| 0 <= i < self.keys@.len() ==> #[trigger] other.parent(i) == self.parent(i)
        &&& forall|i: int| 0 <= i < self.keys@.len() ==> #[trigger] other.sigs@[i]@ == self.sigs@[i]@
    }

    /// `self` holds a link from `p` to `k` signed with `s`.
    pub open spec fn has_link(&self, p: Seq<u8>, k: Seq<u8>, s: Seq<u8>) -> bool {
        exists|i: int|
            1 <= i < self.keys@.len() && #[trigger] self.key(i) == k && self.key(self.parent(i)) == p
                && self.sigs@[i]@ == s
    }

    /// Same keys, parents and signatures.
    pub open spec fn same_as(&self, other: &SectionChain) -> bool {
        &&& self.keys@.len() == other.keys@.len()
        &&& self.parents@ == other.parents@
        &&& self.sigs@.len() == other.sigs@.len()
        &&& forall|i: int| 0 <= i < self.keys@.len() ==> #[trigger] self.key(i) == other.key(i)
        &&& forall|i: int| 0 <= i < self.sigs@.len() ==> #[trigger] self.sigs@[i]@ == other.sigs@[i]@
    }

    /// A copy of the chain.
    pub fn duplicate(&self) -> (r: SectionChain)
        requires
            self.wf(),
        ensures
            r.same_as(self),
            r.wf(),
            r.valid() == self.valid(),
            forall|k: Seq<u8>| #[trigger] r.has(k) == self.has(k),
            self.keys@.len() > 0 ==> r.root_spec() == self.root_spec() && r.last_spec() == self.last_spec(),
    {
        let r = SectionChain {
            keys: copy_byte_vecs(&self.keys),
            parents: self.parents.clone(),
            sigs: copy_byte_vecs(&self.sigs),
        };
        assert(r.parents@ =~= self.parents@);
        proof {
            assert forall|i: int| 0 <= i < r.keys@.len() implies #[trigger] r.parent(i) == self.parent(i) by {}
            assert forall|i: int, j: int|
                0 <= i < r.keys@.len() && 0 <= j < r.keys@.len() && i != j implies r.key(i) != r.key(j) by {
                assert(self.key(i) != self.key(j));
            }
            assert forall|k: Seq<u8>| #[trigger] r.has(k) == self.has(k) by {
                if r.has(k) {
                    let i = choose|i: int| 0 <= i < r.keys@.len() && #[trigger] r.key(i) == k;
                    assert(self.key(i) == k);
                }
                if self.has(k) {
                    let i = choose|i: int| 0 <= i < self.keys@.len() && #[trigger] self.key(i) == k;
                    assert(r.key(i) == k);
                }
            }
            if self.valid() {
                assert forall|i: int| 1 <= i < r.keys@.len() implies #[trigger] r.link_valid(i) by {
                    assert(self.link_valid(i));
                    assert(r.parent(i) == self.parent(i));
                    assert(self.parent(i) < i);
                    assert(r.key(r.parent(i)) == self.key(self.parent(i)));
                }
            }
            if r.valid() {
                assert forall|i: int| 1 <= i < self.keys@.len() implies #[trigger] self.link_valid(i) by {
                    assert(r.link_valid(i));
                    assert(r.parent(i) == self.parent(i));
                    assert(self.parent(i) < i);
                    assert(r.key(r.parent(i)) == self.key(self.parent(i)));
                }
            }
        }
        r
    }

    /// Whether the chain is well-formed.
    pub fn wf_check(&self) -> (r: bool)
        ensures
            r == self.wf(),
    {
        let n = self.keys.len();
        if n == 0 || self.parents.len() != n || self.sigs.len() != n {
            return false;
        }
        let mut i: usize = 1;
        while i < n
            invariant
                1 <= i <= n,
                n == self.keys@.len(),
                self.parents@.len() == n,
                forall|j: int| 1 <= j < i ==> #[trigger] self.parent(j) < j,
            decreases n - i,
        {
            if self.parents[i] >= i {
                assert(self.parent(i as int) >= i);
                return false;
            }
            i += 1;
        }
        let mut a: usize = 0;
        while a < n
            invariant
                a <= n,
                n == self.keys@.len(),
                forall|x: int, y: int| 0 <= x < a && 0 <= y < n && x != y ==> self.key(x) != self.key(y),
            decreases n - a,
        {
            let mut b: usize = 0;
            while b < n
                invariant
                    a < n,
                    b <= n,
                    n == self.keys@.len(),
                    forall|y: int| 0 <= y < b && a != y ==> self.key(a as int) != self.key(y),
                decreases n - b,
            {
                if a != b && self.keys[a] == self.keys[b] {
                    assert(self.key(a as int) =~= self.key(b as int));
                    return false;
                }
                proof {
                    if a != b && self.key(a as int) == self.key(b as int) {
                        assert(self.keys@[a as int]@ =~= self.keys@[b as int]@);
                    }
                }
                b += 1;
            }
            a += 1;
        }
        true
    }

    /// A chain of the root key alone.
    pub fn new(root: Vec<u8>) -> (r: SectionChain)
        ensures
            r.wf(),
            r.valid(),
            r.len_spec() == 1,
            r.root_spec() == root@,
            r.last_spec() == root@,
    {
        SectionChain { keys: vec![root], parents: vec![0], sigs: vec![Vec::new()] }
    }

    /// Number of keys.
    pub fn len(&self) -> (r: usize)
        ensures
            r == self.len_spec(),
    {
        self.keys.len()
    }

    /// The genesis key.
    pub fn root_key(&self) -> (r: &Vec<u8>)
        requires
            self.wf(),
        ensures
            r@ == self.root_spec(),
    {
        &self.keys[0]
    }

    /// The most recently added key.
    pub fn last_key(&self) -> (r: &Vec<u8>)
        requires
            self.wf(),
        ensures
            r@ == self.last_spec(),
    {
        &self.keys[self.keys.len() - 1]
    }

    /// The position of `k`, if the chain holds it.
    pub fn index_of(&self, k: &Vec<u8>) -> (r: Option<usize>)
        ensures
            r matches Some(i) ==> i < self.keys@.len() && self.key(i as int) == k@,
            r is None <==> !self.has(k@),
    {
        let mut i: usize = 0;
        while i < self.keys.len()
            invariant
                i <= self.keys@.len(),
                forall|j: int| 0 <= j < i ==> #[trigger] self.key(j) != k@,
            decreases self.keys@.len() - i,
        {
            if self.keys[i] == *k {
                assert(self.key(i as int) =~= k@);
                return Some(i);
            }
            i += 1;
        }
        None
    }

    /// Whether the chain holds `k`.
    pub fn has_key(&self, k: &Vec<u8>) -> (r: bool)
        ensures
            r == self.has(k@),
    {
        self.index_of(k).is_some()
    }

    /// Whether every link verifies.
    pub fn self_verify(&self) -> (r: bool)
        requires
            self.wf(),
        ensures
            r == self.valid(),
    {
        let mut i: usize = 1;
        while i < self.keys.len()
            invariant
                self.wf(),
                1 <= i <= self.keys@.len(),
                forall|j: int| 1 <= j < i ==> #[trigger] self.link_valid(j),
            decreases self.keys@.len() - i,
        {
            let p = self.parents[i];
            assert(self.parent(i as int) < i);
            if !bls_verify(&self.keys[p], &self.keys[i], &self.sigs[i]) {
                assert(!self.link_valid(i as int));
                return false;
            }
            i += 1;
        }
        true
    }

    /// Adds `key`, signed by `parent_key` with `sig`. Fails, changing nothing,
    /// when `parent_key` is not in the chain or the signature does not verify;
    /// a key already present is left as it is.
    pub fn insert(&mut self, parent_key: &Vec<u8>, key: Vec<u8>, sig: Vec<u8>) -> (r: Result<(), ChainError>)
        requires
            old(self).wf(),
        ensures
            final(self).wf(),
            r is Err ==> *final(self) == *old(self),
            r == Err::<(), ChainError>(ChainError::KeyNotFound) <==> !old(self).has(parent_key@),
            r == Err::<(), ChainError>(ChainError::InvalidSignature) <==> (old(self).has(parent_key@)
                && !bls_sig_valid(parent_key@, key@, sig@)),
            r is Ok <==> (old(self).has(parent_key@) && bls_sig_valid(parent_key@, key@, sig@)),
            r is Ok && old(self).has(key@) ==> *final(self) == *old(self),
            r is Ok && !old(self).has(key@) ==> final(self).len_spec() == old(self).len_spec() + 1
                && final(self).last_spec() == key@ && final(self).has_link(parent_key@, key@, sig@),
            old(self).is_prefix_of(&*final(self)),
            old(self).valid() ==> final(self).valid(),
            forall|k: Seq<u8>| #[trigger] final(self).has(k) <==> (old(self).has(k) || (r is Ok && k == key@)),
    {
        let p = match self.index_of(parent_key) {
            Some(p) => p,
            None => return Err(ChainError::KeyNotFound),
        };
        if !bls_verify(parent_key, &key, &sig) {
            return Err(ChainError::InvalidSignature);
        }
        if self.has_key(&key) {
            return Ok(());
        }
        let ghost old_self = *self;
        let ghost kv = key@;
        let ghost sv = sig@;
        self.keys.push(key);
        self.parents.push(p);
        self.sigs.push(sig);
        proof {
            let n = old_self.keys@.len() as int;
            assert(self.key(n) == kv);
            assert forall|i: int| 0 <= i < n implies #[trigger] self.key(i) == old_self.key(i) by {
                assert(self.keys@[i] == old_self.keys@[i]);
            }
            assert forall|i: int| 0 <= i < n implies #[trigger] self.parent(i) == old_self.parent(i) by {}
            assert forall|i: int| 0 <= i < n implies #[trigger] self.sigs@[i]@ == old_self.sigs@[i]@ by {
                assert(self.sigs@[i] == old_self.sigs@[i]);
            }
            assert(self.key(self.parent(n)) == parent_key@);
            assert(self.has_link(parent_key@, kv, sv));
            assert forall|i: int, j: int|
                0 <= i < self.keys@.len() && 0 <= j < self.keys@.len() && i != j implies self.key(i)
                != self.key(j) by {
                if i < n && j < n {
                } else if i == n {
                    assert(!old_self.has(kv));
                    assert(old_self.key(j) != kv);
                } else {
                    assert(old_self.key(i) != kv);
                }
            }
            if old_self.valid() {
                assert forall|i: int| 1 <= i < self.keys@.len() implies #[trigger] self.link_valid(i) by {
                    if i < n {
                        assert(old_self.link_valid(i));
                    }
                }
            }
            assert forall|k: Seq<u8>| #[trigger] self.has(k) <==> (old_self.has(k) || k == kv) by {
                if self.has(k) {
                    let i = choose|i: int| 0 <= i < self.keys@.len() && #[trigger] self.key(i) == k;
                    if i < n {
                        assert(old_self.key(i) == k);
                    }
                }
                if old_self.has(k) {
                    let i = choose|i: int| 0 <= i < old_self.keys@.len() && #[trigger] old_self.key(i) == k;
                    assert(self.key(i) == k);
                }
                if k == kv {
                    assert(self.key(n) == k);
                }
            }
        }
        Ok(())
    }

    /// Key `i` reaches key `a` by following parents.
    pub open spec fn descends(&self, i: int, a: int) -> bool
        decreases i,
    {
        if i == a {
            true
        } else if 0 < i && 0 <= self.parent(i) < i {
            self.descends(self.parent(i), a)
        } else {
            false
        }
    }

    /// `from` is in the chain and the last key descends from it.
    pub open spec fn last_descends_from(&self, from: Seq<u8>) -> bool {
        exists|a: int|
            0 <= a < self.keys@.len() && #[trigger] self.key(a) == from && self.descends(
                self.keys@.len() - 1,
                a,
            )
    }

    /// Every link of `self` is a link of `other`.
    pub open spec fn links_within(&self, other: &SectionChain) -> bool {
        forall|j: int|
            1 <= j < self.keys@.len() ==> #[trigger] other.has_link(
                self.key(self.parent(j)),
                self.key(j),
                self.sigs@[j]@,
            )
    }

    /// Merges the keys of `other` into this chain, in `other`'s order. Fails,
    /// changing nothing, when the roots differ or a link of `other` does not verify.
    pub fn merge(&mut self, other: &SectionChain) -> (r: Result<(), ChainError>)
        requires
            old(self).wf(),
            other.wf(),
        ensures
            final(self).wf(),
            r is Err ==> *final(self) == *old(self),
            r == Err::<(), ChainError>(ChainError::Incompatible) <==> old(self).root_spec() != other.root_spec(),
            r == Err::<(), ChainError>(ChainError::InvalidSignature) <==> (old(self).root_spec() == other.root_spec()
                && !other.valid()),
            r is Ok <==> (old(self).root_spec() == other.root_spec() && other.valid()),
            old(self).is_prefix_of(&*final(self)),
            old(self).valid() ==> final(self).valid(),
            r is Ok ==> forall|k: Seq<u8>| #[trigger] final(self).has(k) <==> (old(self).has(k) || other.has(k)),
            (forall|k: Seq<u8>| #[trigger] other.has(k) ==> old(self).has(k)) ==> *final(self) == *old(self),
    {
        if !(self.keys[0] == other.keys[0]) {
            proof {
                if self.key(0) == other.key(0) {
                    assert(self.keys@[0]@ == other.keys@[0]@);
                }
                assert(other.has(other.key(0)));
            }
            return Err(ChainError::Incompatible);
        }
        assert(self.key(0) =~= other.key(0));
        if !other.self_verify() {
            proof {
                assert(other.has(other.key(0)));
            }
            return Err(ChainError::InvalidSignature);
        }
        let ghost old_self = *self;
        let mut i: usize = 1;
        while i < other.keys.len()
            invariant
                self.wf(),
                other.wf(),
                other.valid(),
                old_self.wf(),
                1 <= i <= other.keys@.len(),
                old_self.root_spec() == other.root_spec(),
                old_self.is_prefix_of(&*self),
                old_self.valid() ==> self.valid(),
                forall|j: int| 0 <= j < i ==> #[trigger] self.has(other.key(j)),
                forall|k: Seq<u8>|
                    #[trigger] self.has(k) ==> (old_self.has(k) || exists|j: int|
                        0 <= j < i && #[trigger] other.key(j) == k),
                (forall|k: Seq<u8>| #[trigger] other.has(k) ==> old_self.has(k)) ==> *self == old_self,
            decreases other.keys@.len() - i,
        {
            let p = other.parents[i];
            assert(other.parent(i as int) < i);
            assert(other.link_valid(i as int));
            let ghost before = *self;
            let res = self.insert(&other.keys[p], copy_bytes(&other.keys[i]), copy_bytes(&other.sigs[i]));
            proof {
                assert(before.has(other.key(other.parent(i as int))));
                assert(res is Ok);
                assert forall|a: int| 0 <= a < old_self.keys@.len() implies #[trigger] self.key(a) == old_self.key(a) by {
                    assert(before.key(a) == old_self.key(a));
                }
                assert forall|a: int| 0 <= a < old_self.keys@.len() implies #[trigger] self.parent(a) == old_self.parent(a) by {
                    assert(before.parent(a) == old_self.parent(a));
                }
                assert forall|a: int| 0 <= a < old_self.keys@.len() implies #[trigger] self.sigs@[a]@ == old_self.sigs@[a]@ by {
                    assert(before.sigs@[a]@ == old_self.sigs@[a]@);
                }
                assert forall|j: int| 0 <= j < i + 1 implies #[trigger] self.has(other.key(j)) by {
                    if j < i {
                        assert(before.has(other.key(j)));
                    }
                }
                assert forall|k: Seq<u8>|
                    #[trigger] self.has(k) implies (old_self.has(k) || exists|j: int|
                        0 <= j < i + 1 && #[trigger] other.key(j) == k) by {
                    if before.has(k) {
                        if !old_self.has(k) {
                            let j = choose|j: int| 0 <= j < i && #[trigger] other.key(j) == k;
                            assert(0 <= j < i + 1 && other.key(j) == k);
                        }
                    } else {
                        assert(other.key(i as int) == k);
                    }
                }
                if forall|k: Seq<u8>| #[trigger] other.has(k) ==> old_self.has(k) {
                    assert(other.has(other.key(i as int)));
                    assert(before.has(other.key(i as int)));
                }
            }
            i += 1;
        }
        proof {
            assert forall|k: Seq<u8>| #[trigger] self.has(k) <==> (old_self.has(k) || other.has(k)) by {
                if self.has(k) && !old_self.has(k) {
                    let j = choose|j: int| 0 <= j < i && #[trigger] other.key(j) == k;
                    assert(other.has(k));
                }
                if old_self.has(k) {
                    let a = choose|a: int| 0 <= a < old_self.keys@.len() && #[trigger] old_self.key(a) == k;
                    assert(self.key(a) == k);
                }
                if other.has(k) {
                    let j = choose|j: int| 0 <= j < other.keys@.len() && #[trigger] other.key(j) == k;
                    assert(self.has(other.key(j)));
                }
            }
        }
        Ok(())
    }

    /// The path of keys from `from` down to the last key, as a chain of its
    /// own rooted at `from`. Fails when the last key does not descend from `from`.
    pub fn proof_chain_from(&self, from: &Vec<u8>) -> (r: Result<SectionChain, ChainError>)
        requires
            self.wf(),
        ensures
            r is Ok <==> self.last_descends_from(from@),
            r is Err ==> r == Err::<SectionChain, ChainError>(ChainError::KeyNotFound),
            r matches Ok(c) ==> {
                &&& c.wf()
                &&& c.root_spec() == from@
                &&& c.last_spec() == self.last_spec()
                &&& c.links_within(self)
                &&& (self.valid() ==> c.valid())
            },
    {
        let fi = match self.index_of(from) {
            Some(fi) => fi,
            None => {
                proof {
                    if self.last_descends_from(from@) {
                        let a = choose|a: int|
                            0 <= a < self.keys@.len() && #[trigger] self.key(a) == from@ && self.descends(
                                self.keys@.len() - 1,
                                a,
                            );
                        assert(self.has(from@));
                    }
                }
                return Err(ChainError::KeyNotFound);
            },
        };
        let last = self.keys.len() - 1;
        let mut idx = last;
        let mut path: Vec<usize> = vec![idx];
        while idx != fi
            invariant
                self.wf(),
                fi < self.keys@.len(),
                self.key(fi as int) == from@,
                idx < self.keys@.len(),
                last == self.keys@.len() - 1,
                path@.len() >= 1,
                path@[0] == last,
                path@.last() == idx,
                forall|t: int| 0 <= t < path@.len() ==> #[trigger] path@[t] < self.keys@.len(),
                forall|t: int, u: int| 0 <= t < u < path@.len() ==> path@[t] > path@[u],
                forall|t: int| 0 <= t < path@.len() - 1 ==> #[trigger] path@[t + 1] == self.parent(path@[t] as int),
                self.descends(last as int, fi as int) == self.descends(idx as int, fi as int),
            decreases idx,
        {
            if idx == 0 {
                proof {
                    assert(!self.descends(0, fi as int));
                    if self.last_descends_from(from@) {
                        let a = choose|a: int|
                            0 <= a < self.keys@.len() && #[trigger] self.key(a) == from@ && self.descends(
                                self.keys@.len() - 1,
                                a,
                            );
                        assert(self.key(a) == self.key(fi as int));
                        assert(a == fi);
                    }
                }
                return Err(ChainError::KeyNotFound);
            }
            assert(self.parent(idx as int) < idx);
            let ghost prev = path@;
            idx = self.parents[idx];
            path.push(idx);
            proof {
                assert forall|t: int| 0 <= t < path@.len() - 1 implies #[trigger] path@[t + 1] == self.parent(path@[t] as int) by {
                    if t < prev.len() - 1 {
                        assert(path@[t + 1] == prev[t + 1]);
                    }
                }
                assert forall|t: int, u: int| 0 <= t < u < path@.len() implies path@[t] > path@[u] by {
                    if u < prev.len() {
                        assert(path@[t] == prev[t] && path@[u] == prev[u]);
                    } else {
                        assert(prev[t] >= prev.last());
                    }
                }
            }
        }
        assert(self.last_descends_from(from@)) by {
            assert(self.descends(fi as int, fi as int));
        }
        let m = path.len() - 1;
        let mut keys: Vec<Vec<u8>> = Vec::new();
        let mut parents: Vec<usize> = Vec::new();
        let mut sigs: Vec<Vec<u8>> = Vec::new();
        let mut j: usize = 0;
        while j <= m
            invariant
                self.wf(),
                m + 1 == path@.len(),
                path@[0] == last,
                last == self.keys@.len() - 1,
                path@[m as int] == fi,
                self.key(fi as int) == from@,
                0 <= j <= m + 1,
                forall|t: int| 0 <= t < path@.len() ==> #[trigger] path@[t] < self.keys@.len(),
                forall|t: int, u: int| 0 <= t < u < path@.len() ==> path@[t] > path@[u],
                forall|t: int| 0 <= t < path@.len() - 1 ==> #[trigger] path@[t + 1] == self.parent(path@[t] as int),
                keys@.len() == j,
                parents@.len() == j,
                sigs@.len() == j,
                forall|q: int| 0 <= q < j ==> #[trigger] keys@[q]@ == self.key(path@[m - q] as int),
                forall|q: int| 0 <= q < j ==> #[trigger] sigs@[q]@ == self.sigs@[path@[m - q] as int]@,
                forall|q: int| 0 <= q < j ==> #[trigger] parents@[q] == if q == 0 { 0 } else { q - 1 },
            decreases m + 1 - j,
        {
            let k = path[m - j];
            keys.push(copy_bytes(&self.keys[k]));
            sigs.push(copy_bytes(&self.sigs[k]));
            parents.push(if j == 0 { 0 } else { j - 1 });
            j += 1;
        }
        let c = SectionChain { keys, parents, sigs };
        proof {
            assert forall|q: int, w: int|
                0 <= q < c.keys@.len() && 0 <= w < c.keys@.len() && q != w implies c.key(q) != c.key(w) by {
                assert(path@[m - q] != path@[m - w]) by {
                    if m - q < m - w {
                        assert(path@[m - q] > path@[m - w]);
                    } else {
                        assert(path@[m - w] > path@[m - q]);
                    }
                }
            }
            assert forall|q: int| 1 <= q < c.keys@.len() implies #[trigger] self.has_link(
                c.key(c.parent(q)),
                c.key(q),
                c.sigs@[q]@,
            ) by {
                let i = path@[m - q] as int;
                assert(path@[m - q + 1] == self.parent(path@[m - q] as int));
                assert(path@[m - q] > path@[m - q + 1]);
                assert(path@[m - q + 1] >= path@[m as int]);
                assert(1 <= i);
                assert(c.key(q) == self.key(i));
                assert(c.key(c.parent(q)) == self.key(self.parent(i)));
            }
            if self.valid() {
                assert forall|q: int| 1 <= q < c.keys@.len() implies #[trigger] c.link_valid(q) by {
                    let i = path@[m - q] as int;
                    assert(path@[m - q + 1] == self.parent(path@[m - q] as int));
                    assert(path@[m - q] > path@[m - q + 1]);
                    assert(path@[m - q + 1] >= path@[m as int]);
                    assert(self.link_valid(i));
                }
            }
        }
        Ok(c)
    }
}

} // verus!
