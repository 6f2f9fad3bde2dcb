//! Collects BLS signature shares over a payload and combines them into a
//! section signature once enough distinct valid shares are held.

use crate::bytes::copy_bytes;
pub use crate::crypto::quorum_of_shares;
use crate::crypto::{bls_combined, bls_sig_valid, bls_verify, bls_combine, bls_set_key, bls_set_public_key, bls_set_threshold, bls_share_valid, bls_threshold, bls_verify_share};
use crate::error::Error;
use crate::sap::KeyedSig;
use vstd::prelude::*;

verus! {

/// One participant's signature share, with the key set it belongs to.
#[derive(Clone, Debug)]
pub struct SigShare {
    pub public_key_set: Vec<u8>,
    pub index: usize,
    pub signature_share: Vec<u8>,
}

impl SigShare {
    /// A copy.
    pub fn duplicate(&self) -> (r: SigShare)
        ensures
            r.public_key_set@ == self.public_key_set@,
            r.index == self.index,
            r.signature_share@ == self.signature_share@,
    {
        SigShare {
            public_key_set: copy_bytes(&self.public_key_set),
            index: self.index,
            signature_share: copy_bytes(&self.signature_share),
        }
    }
}

/// The shares held for one payload under one key set.
#[derive(Clone, Debug)]
pub struct AggEntry {
    pub payload: Vec<u8>,
    pub public_key_set: Vec<u8>,
    pub indices: Vec<usize>,
    pub shares: Vec<Vec<u8>>,
}

impl AggEntry {
    /// Indices are distinct and every held share verifies.
    pub open spec fn wf(&self) -> bool {
        &&& self.indices@.len() == self.shares@.len()
        &&& forall|i: int, j: int| 0 <= i < j < self.indices@.len() ==> self.indices@[i] != self.indices@[j]
        &&& forall|i: int|
            0 <= i < self.indices@.len() ==> bls_share_valid(
                self.public_key_set@,
                #[trigger] self.indices@[i] as nat,
                self.payload@,
                self.shares@[i]@,
            )
    }

    pub open spec fn matches(&self, payload: Seq<u8>, pk_set: Seq<u8>) -> bool {
        self.payload@ == payload && self.public_key_set@ == pk_set
    }
}

/// The aggregator: at most one entry per payload and key set.
#[derive(Clone, Debug)]
pub struct SignatureAggregator {
    pub entries: Vec<AggEntry>,
}

/// The share can be aggregated: its key set decodes and it verifies.
pub open spec fn share_ok(share: SigShare, payload: Seq<u8>) -> bool {
    &&& share.public_key_set@.len() >= crate::crypto::PK_LEN
    &&& crate::crypto::bls_set_decodes(share.public_key_set@)
    &&& bls_share_valid(share.public_key_set@, share.index as nat, payload, share.signature_share@)
}

/// The share bytes of an entry.
pub open spec fn share_views(s: Seq<Vec<u8>>) -> Seq<Seq<u8>> {
    crate::crypto::byte_views(s)
}

proof fn lemma_entry_at(a: SignatureAggregator, i: int, payload: Seq<u8>, pk_set: Seq<u8>)
    requires
        a.wf(),
        0 <= i < a.entries@.len(),
        a.entries@[i].matches(payload, pk_set),
    ensures
        a.has_entry(payload, pk_set),
        a.entry_at(payload, pk_set) == i,
{
    assert(a.has_entry(payload, pk_set));
    let c = a.entry_at(payload, pk_set);
    if c < i {
        assert(!a.entries@[i].matches(a.entries@[c].payload@, a.entries@[c].public_key_set@));
    } else if c > i {
        assert(!a.entries@[c].matches(a.entries@[i].payload@, a.entries@[i].public_key_set@));
    }
}

impl SignatureAggregator {
    pub open spec fn wf(&self) -> bool {
        &&& forall|i: int| 0 <= i < self.entries@.len() ==> (#[trigger] self.entries@[i]).wf()
        &&& forall|i: int, j: int|
            0 <= i < j < self.entries@.len() ==> !self.entries@[j].matches(
                self.entries@[i].payload@,
                self.entries@[i].public_key_set@,
            )
    }

    /// An entry is held for `payload` under `pk_set`.
    pub open spec fn has_entry(&self, payload: Seq<u8>, pk_set: Seq<u8>) -> bool {
        exists|i: int| 0 <= i < self.entries@.len() && #[trigger] self.entries@[i].matches(payload, pk_set)
    }

    /// The position of that entry.
    pub open spec fn entry_at(&self, payload: Seq<u8>, pk_set: Seq<u8>) -> int {
        choose|i: int| 0 <= i < self.entries@.len() && #[trigger] self.entries@[i].matches(payload, pk_set)
    }

    /// The indices of the shares held for `payload` under `pk_set`.
    pub open spec fn held_indices(&self, payload: Seq<u8>, pk_set: Seq<u8>) -> Seq<usize> {
        if self.has_entry(payload, pk_set) {
            self.entries@[self.entry_at(payload, pk_set)].indices@
        } else {
            Seq::empty()
        }
    }

    /// The shares held for `payload` under `pk_set`, in the order of `held_indices`.
    pub open spec fn held_shares(&self, payload: Seq<u8>, pk_set: Seq<u8>) -> Seq<Seq<u8>> {
        if self.has_entry(payload, pk_set) {
            share_views(self.entries@[self.entry_at(payload, pk_set)].shares@)
        } else {
            Seq::empty()
        }
    }

    /// The indices held once `share` is added (an index already held is not added again).
    pub open spec fn indices_after(&self, payload: Seq<u8>, share: SigShare) -> Seq<usize> {
        let h = self.held_indices(payload, share.public_key_set@);
        if h.contains(share.index) {
            h
        } else {
            h.push(share.index)
        }
    }

    /// The shares held once `share` is added.
    pub open spec fn shares_after(&self, payload: Seq<u8>, share: SigShare) -> Seq<Seq<u8>> {
        let h = self.held_shares(payload, share.public_key_set@);
        if self.held_indices(payload, share.public_key_set@).contains(share.index) {
            h
        } else {
            h.push(share.signature_share@)
        }
    }

    /// An empty aggregator.
    pub fn new() -> (r: SignatureAggregator)
        ensures
            r.wf(),
            r.entries@.len() == 0,
    {
        SignatureAggregator { entries: Vec::new() }
    }

    fn find(&self, payload: &Vec<u8>, pk_set: &Vec<u8>) -> (r: Option<usize>)
        ensures
            r matches Some(i) ==> i < self.entries@.len() && self.entries@[i as int].matches(payload@, pk_set@),
            r is None ==> forall|i: int| 0 <= i < self.entries@.len() ==> !(#[trigger] self.entries@[i]).matches(payload@, pk_set@),
    {
        let mut i: usize = 0;
        while i < self.entries.len()
            invariant
                i <= self.entries@.len(),
                forall|j: int| 0 <= j < i ==> !(#[trigger] self.entries@[j]).matches(payload@, pk_set@),
            decreases self.entries@.len() - i,
        {
            if self.entries[i].payload == *payload && self.entries[i].public_key_set == *pk_set {
                assert(self.entries@[i as int].payload@ =~= payload@);
                assert(self.entries@[i as int].public_key_set@ =~= pk_set@);
                return Some(i);
            }
            proof {
                if self.entries@[i as int].matches(payload@, pk_set@) {
                    assert(self.entries@[i as int].payload@ =~= payload@);
                    assert(self.entries@[i as int].public_key_set@ =~= pk_set@);
                }
            }
            i += 1;
        }
        None
    }

    /// Adds `share` for `payload`. A share that does not verify is refused
    /// with `InvalidSignatureShare`, and so is a key set that does not decode;
    /// a share for an index already held is ignored. Once the shares held
    /// exceed the key set's threshold they are combined into a signature
    /// under the set's main key, and the entry is dropped.
    pub fn try_aggregate(&mut self, payload: &Vec<u8>, share: SigShare) -> (r: Result<Option<KeyedSig>, Error>)
        requires
            old(self).wf(),
        ensures
            final(self).wf(),
            !share_ok(share, payload@) ==> (r matches Err(Error::InvalidSignatureShare)) && *final(self) == *old(self),
            r matches Err(e) ==> e is InvalidSignatureShare,
            share_ok(share, payload@) && old(self).indices_after(payload@, share).len() <= bls_set_threshold(share.public_key_set@)
                ==> (r matches Ok(None)) && final(self).held_indices(payload@, share.public_key_set@) == old(self).indices_after(
                payload@,
                share,
            ) && final(self).held_shares(payload@, share.public_key_set@) == old(self).shares_after(payload@, share),
            share_ok(share, payload@) && old(self).indices_after(payload@, share).len() > bls_set_threshold(share.public_key_set@)
                ==> quorum_of_shares(
                share.public_key_set@,
                payload@,
                old(self).indices_after(payload@, share),
                old(self).shares_after(payload@, share),
            ) && !(r matches Ok(None)) && !final(self).has_entry(payload@, share.public_key_set@),
            share_ok(share, payload@) && old(self).indices_after(payload@, share).len() > bls_set_threshold(share.public_key_set@)
                && bls_sig_valid(
                bls_set_public_key(share.public_key_set@),
                payload@,
                bls_combined(share.public_key_set@, old(self).indices_after(payload@, share), old(self).shares_after(payload@, share)),
            ) ==> r matches Ok(Some(_)),
            r matches Ok(Some(sig)) ==> sig.signature@ == bls_combined(
                share.public_key_set@,
                old(self).indices_after(payload@, share),
                old(self).shares_after(payload@, share),
            ),
            r matches Ok(Some(sig)) ==> share_ok(share, payload@) && sig.public_key@ == bls_set_public_key(share.public_key_set@)
                && bls_sig_valid(sig.public_key@, payload@, sig.signature@) && quorum_of_shares(
                share.public_key_set@,
                payload@,
                old(self).indices_after(payload@, share),
                old(self).shares_after(payload@, share),
            ),
    {
        if share.public_key_set.len() < crate::crypto::PK_LEN {
            return Err(Error::InvalidSignatureShare);
        }
        if !bls_verify_share(&share.public_key_set, share.index, payload, &share.signature_share) {
            return Err(Error::InvalidSignatureShare);
        }
        let threshold = match bls_threshold(&share.public_key_set) {
            Some(t) => t,
            None => return Err(Error::InvalidSignatureShare),
        };
        let i = match self.find(payload, &share.public_key_set) {
            Some(i) => {
                proof {
                    lemma_entry_at(*self, i as int, payload@, share.public_key_set@);
                }
                i
            },
            None => {
                assert(!old(self).has_entry(payload@, share.public_key_set@));
                let ghost prev = self.entries@;
                self.entries.push(AggEntry {
                    payload: copy_bytes(payload),
                    public_key_set: copy_bytes(&share.public_key_set),
                    indices: Vec::new(),
                    shares: Vec::new(),
                });
                proof {
                    assert forall|a: int| 0 <= a < self.entries@.len() implies (#[trigger] self.entries@[a]).wf() by {
                        if a < prev.len() {
                            assert(self.entries@[a] == prev[a]);
                        }
                    }
                    assert forall|a: int, b: int|
                        0 <= a < b < self.entries@.len() implies !self.entries@[b].matches(
                        self.entries@[a].payload@,
                        self.entries@[a].public_key_set@,
                    ) by {
                        if b < prev.len() {
                            assert(self.entries@[a] == prev[a] && self.entries@[b] == prev[b]);
                        } else {
                            assert(self.entries@[a] == prev[a]);
                            assert(!prev[a].matches(payload@, share.public_key_set@));
                        }
                    }
                }
                self.entries.len() - 1
            },
        };
        assert(self.entries@[i as int].indices@ == old(self).held_indices(payload@, share.public_key_set@));
        assert(share_views(self.entries@[i as int].shares@) =~= old(self).held_shares(payload@, share.public_key_set@));
        // Take the entry out, extend it, and put it back or combine.
        let ghost before = self.entries@;
        let mut entry = self.entries.remove(i);
        proof {
            assert(before[i as int].wf());
            assert forall|a: int| 0 <= a < self.entries@.len() implies (#[trigger] self.entries@[a]).wf() by {
                if a < i {
                    assert(self.entries@[a] == before[a]);
                } else {
                    assert(self.entries@[a] == before[a + 1]);
                }
            }
            assert forall|a: int, b: int|
                0 <= a < b < self.entries@.len() implies !self.entries@[b].matches(
                self.entries@[a].payload@,
                self.entries@[a].public_key_set@,
            ) by {
                let a0 = if a < i { a } else { a + 1 };
                let b0 = if b < i { b } else { b + 1 };
                assert(self.entries@[a] == before[a0] && self.entries@[b] == before[b0]);
            }
            assert forall|a: int| 0 <= a < self.entries@.len() implies !(#[trigger] self.entries@[a]).matches(
                payload@,
                share.public_key_set@,
            ) by {
                if a < i {
                    assert(self.entries@[a] == before[a]);
                } else {
                    assert(self.entries@[a] == before[a + 1]);
                }
            }
        }
        let mut present = false;
        let mut k: usize = 0;
        while k < entry.indices.len()
            invariant
                k <= entry.indices@.len(),
                present ==> exists|q: int| 0 <= q < entry.indices@.len() && entry.indices@[q] == share.index,
                !present ==> forall|q: int| 0 <= q < k ==> entry.indices@[q] != share.index,
            decreases entry.indices@.len() - k,
        {
            if entry.indices[k] == share.index {
                present = true;
            }
            k += 1;
        }
        let ghost held_shares = share_views(entry.shares@);
        proof {
            if present {
                assert(entry.indices@.contains(share.index));
            } else {
                assert(!entry.indices@.contains(share.index));
            }
        }
        if !present {
            entry.indices.push(share.index);
            entry.shares.push(copy_bytes(&share.signature_share));
            assert(share_views(entry.shares@) =~= held_shares.push(share.signature_share@));
        }
        assert(entry.indices@ == old(self).indices_after(payload@, share));
        assert(share_views(entry.shares@) == old(self).shares_after(payload@, share));
        assert(entry.wf()) by {
            if !present {
                let n = entry.indices@.len() - 1;
                assert forall|a: int, b: int| 0 <= a < b < entry.indices@.len() implies entry.indices@[a] != entry.indices@[b] by {
                    if b == n {
                        assert(entry.indices@[a] != share.index);
                    }
                }
            }
        }
        if entry.indices.len() > threshold {
            let ghost qi = entry.indices@;
            let ghost qs = share_views(entry.shares@);
            assert(quorum_of_shares(share.public_key_set@, payload@, qi, qs));
            let combined = bls_combine(&entry.public_key_set, &entry.indices, &entry.shares);
            let key = bls_set_key(&share.public_key_set);
            match (combined, key) {
                (Some(sig), Some(key)) => {
                    if bls_verify(&key, payload, &sig) {
                        Ok(Some(KeyedSig { public_key: key, signature: sig }))
                    } else {
                        Err(Error::InvalidSignatureShare)
                    }
                },
                _ => Err(Error::InvalidSignatureShare),
            }
        } else {
            let ghost prev = self.entries@;
            self.entries.push(entry);
            proof {
                let n = prev.len() as int;
                assert(self.entries@[n].matches(payload@, share.public_key_set@));
                assert forall|a: int| 0 <= a < self.entries@.len() implies (#[trigger] self.entries@[a]).wf() by {
                    if a < n {
                        assert(self.entries@[a] == prev[a]);
                    }
                }
                assert forall|a: int, b: int|
                    0 <= a < b < self.entries@.len() implies !self.entries@[b].matches(
                    self.entries@[a].payload@,
                    self.entries@[a].public_key_set@,
                ) by {
                    if b < n {
                        assert(self.entries@[a] == prev[a] && self.entries@[b] == prev[b]);
                    } else {
                        assert(self.entries@[a] == prev[a]);
                    }
                }
                lemma_entry_at(*self, n, payload@, share.public_key_set@);
            }
            Ok(None)
        }
    }
}

} // verus!
