//! A node's knowledge of its own section: the chain of section keys, the
//! current SAP and the member roster.

use crate::bytes::copy_bytes;
use crate::chain::SectionChain;
use crate::crypto::{bls_set_decodes, bls_set_key, bls_set_public_key, bls_sign, bls_signature_of};
use crate::error::Error;
use crate::name::{bit, name_bit, prefix_extends, prefix_matches, prefix_name, Prefix, NAME_BITS};
use crate::roster::{eligible_count, is_top, name_set, after_update, PeerFilter, SectionPeers, peers_kept};
use crate::sap::{peers_view, sap_bytes, KeyedSig, NodeState, Peer, PeerView, SectionAuthorityProvider, SignedNodeState, SignedSap, names_of};
use crate::{ELDER_SIZE, GENESIS_AGE, RECOMMENDED_SECTION_SIZE};
use vstd::prelude::*;

verus! {

/// A candidate Elder set for a prefix.
#[derive(Clone, Debug)]
pub struct ElderCandidates {
    pub elders: Vec<Peer>,
    pub prefix: Prefix,
}

/// This node's share of a section key.
#[derive(Clone, Debug)]
pub struct SectionKeyShare {
    pub public_key_set: Vec<u8>,
    pub index: usize,
    pub secret_key_share: Vec<u8>,
}

/// What a node knows of its own section.
#[derive(Clone, Debug)]
pub struct Section {
    pub genesis_key: Vec<u8>,
    pub chain: SectionChain,
    pub section_auth: SignedSap,
    pub section_peers: SectionPeers,
}

/// The SAP is signed with its key set's main key.
pub open spec fn sap_key_matches(s: &SignedSap) -> bool {
    s.value.public_key_set@.len() >= crate::crypto::PK_LEN && bls_set_decodes(s.value.public_key_set@) && s.sig.public_key@ == bls_set_public_key(s.value.public_key_set@)
}

/// One step of merging member states: a state trusted by `chain` updates the roster.
/// A member state that the roster takes: under `prefix`, signed by a key of
/// `chain`, and verifying.
pub open spec fn admitted(e: SignedNodeState, chain: SectionChain, prefix: Seq<bool>) -> bool {
    prefix_matches(prefix, e.value.peer.name@) && chain.has(e.sig.public_key@) && e.verified()
}

pub open spec fn merge_step(s: Seq<SignedNodeState>, e: SignedNodeState, chain: SectionChain, prefix: Seq<bool>) -> Seq<SignedNodeState> {
    if admitted(e, chain, prefix) {
        after_update(s, e)
    } else {
        s
    }
}

/// The roster after merging the member states `ms`, in order.
pub open spec fn merged(s: Seq<SignedNodeState>, ms: Seq<SignedNodeState>, chain: SectionChain, prefix: Seq<bool>) -> Seq<SignedNodeState>
    decreases ms.len(),
{
    if ms.len() == 0 {
        s
    } else {
        merge_step(merged(s, ms.drop_last(), chain, prefix), ms.last(), chain, prefix)
    }
}

/// The section can split: its prefix is short of full length and, for the
/// next bit of `our_name`, both halves hold enough eligible members.
pub open spec fn split_ready(s: &Section, our_name: Seq<u8>, excluded: Set<Seq<u8>>) -> bool {
    let p = s.section_auth.value.prefix@;
    let nb = name_bit(our_name, p.len() as int);
    &&& p.len() < NAME_BITS
    &&& eligible_count(s.section_peers.members@, excluded, p.push(nb)) >= RECOMMENDED_SECTION_SIZE
    &&& eligible_count(s.section_peers.members@, excluded, p.push(!nb)) >= RECOMMENDED_SECTION_SIZE
}

/// Whether every name in `a` is a name in `b`.
pub fn names_subset(a: &Vec<Peer>, b: &Vec<Peer>) -> (r: bool)
    ensures
        r == names_of(peers_view(a@)).subset_of(names_of(peers_view(b@))),
{
    let mut i: usize = 0;
    while i < a.len()
        invariant
            i <= a@.len(),
            forall|j: int| 0 <= j < i ==> names_of(peers_view(b@)).contains(#[trigger] a@[j].name@),
        decreases a@.len() - i,
    {
        let mut found = false;
        let mut k: usize = 0;
        while k < b.len()
            invariant
                k <= b@.len(),
                i < a@.len(),
                found ==> names_of(peers_view(b@)).contains(a@[i as int].name@),
                !found ==> forall|q: int| 0 <= q < k ==> #[trigger] b@[q].name@ != a@[i as int].name@,
            decreases b@.len() - k,
        {
            if b[k].name == a[i].name {
                assert(b@[k as int].name@ =~= a@[i as int].name@);
                assert(peers_view(b@)[k as int].name == a@[i as int].name@);
                found = true;
            }
            k += 1;
        }
        if !found {
            proof {
                let sa = peers_view(a@);
                assert(names_of(sa).contains(sa[i as int].name));
                if names_of(peers_view(b@)).contains(a@[i as int].name@) {
                    let q = choose|q: int| 0 <= q < peers_view(b@).len() && #[trigger] peers_view(b@)[q].name == a@[i as int].name@;
                    assert(b@[q].name@ == a@[i as int].name@);
                }
            }
            return false;
        }
        i += 1;
    }
    proof {
        assert forall|n: Seq<u8>| names_of(peers_view(a@)).contains(n) implies names_of(peers_view(b@)).contains(n) by {
            let j = choose|j: int| 0 <= j < peers_view(a@).len() && #[trigger] peers_view(a@)[j].name == n;
            assert(names_of(peers_view(b@)).contains(a@[j].name@));
        }
    }
    true
}

/// The genesis node's peer: its age set to `GENESIS_AGE`.
pub open spec fn genesis_peer(p: PeerView) -> PeerView {
    PeerView { name: p.name, addr: p.addr, age: GENESIS_AGE }
}

/// The genesis SAP: the empty prefix, the genesis key set, one Elder.
pub open spec fn genesis_sap(p: PeerView, pk_set: Seq<u8>) -> crate::sap::SapView {
    crate::sap::SapView { prefix: Seq::empty(), key_set: pk_set, elders: seq![genesis_peer(p)] }
}

/// The genesis key set and secret decode, and the secret's signature of the
/// genesis SAP verifies under the set's main key.
pub open spec fn genesis_ok(p: PeerView, pk_set: Seq<u8>, sk: Seq<u8>) -> bool {
    let bytes = sap_bytes(genesis_sap(p, pk_set));
    &&& pk_set.len() >= crate::crypto::PK_LEN
    &&& bls_set_decodes(pk_set)
    &&& crate::crypto::bls_secret_decodes(sk)
    &&& crate::crypto::bls_sig_valid(bls_set_public_key(pk_set), bytes, bls_signature_of(sk, bytes))
}

/// A SAP fit to be adopted: it names at least one Elder, its signature
/// verifies, and it is signed with its key set's main key.
pub open spec fn sap_acceptable(s: &SignedSap) -> bool {
    s.value.elders@.len() > 0 && s.verified() && sap_key_matches(s)
}

impl Section {
    /// The chain is rooted at the genesis key, verifies, and holds the SAP's key.
    pub open spec fn wf(&self) -> bool {
        &&& self.chain.wf()
        &&& self.chain.valid()
        &&& self.section_peers.wf()
        &&& self.chain.root_spec() == self.genesis_key@
        &&& self.chain.has(self.section_auth.sig.public_key@)
        &&& self.section_auth.value.prefix.wf()
    }

    /// The SAP's key is the chain's last key.
    pub open spec fn coherent(&self) -> bool {
        self.section_auth.sig.public_key@ == self.chain.last_spec()
    }

    /// A section knowing only its Elders. Checks, in order: the SAP is signed
    /// with the chain's last key; the chain's root is `genesis_key`; the SAP's
    /// signature verifies; the signing key is the SAP's key set's main key;
    /// every link of the chain verifies.
    pub fn new(genesis_key: Vec<u8>, chain: SectionChain, section_auth: SignedSap) -> (r: Result<Section, Error>)
        requires
            chain.wf(),
            section_auth.value.prefix.wf(),
        ensures
            r is Ok <==> (section_auth.sig.public_key@ == chain.last_spec() && genesis_key@ == chain.root_spec()
                && sap_acceptable(&section_auth) && chain.valid()),
            r matches Err(e) ==> (e is UntrustedSectionAuthProvider || e is UntrustedProofChain),
            section_auth.sig.public_key@ != chain.last_spec() ==> r matches Err(Error::UntrustedSectionAuthProvider),
            section_auth.sig.public_key@ == chain.last_spec() && genesis_key@ != chain.root_spec() ==> r matches Err(
                Error::UntrustedProofChain,
            ),
            section_auth.sig.public_key@ == chain.last_spec() && genesis_key@ == chain.root_spec() && !sap_acceptable(
                &section_auth,
            ) ==> r matches Err(Error::UntrustedSectionAuthProvider),
            section_auth.sig.public_key@ == chain.last_spec() && genesis_key@ == chain.root_spec() && sap_acceptable(
                &section_auth,
            ) && !chain.valid() ==> r matches Err(Error::UntrustedProofChain),
            r matches Ok(s) ==> {
                &&& s.wf()
                &&& s.coherent()
                &&& s.chain == chain
                &&& s.genesis_key@ == genesis_key@
                &&& s.section_auth == section_auth
                &&& s.section_peers.members@.len() == 0
                &&& s.chain.valid()
            },
    {
        if !(section_auth.sig.public_key == *chain.last_key()) {
            return Err(Error::UntrustedSectionAuthProvider);
        }
        assert(section_auth.sig.public_key@ =~= chain.last_spec());
        if !(genesis_key == *chain.root_key()) {
            proof {
                if genesis_key@ == chain.root_spec() {
                    assert(genesis_key@ =~= chain.root_spec());
                }
            }
            return Err(Error::UntrustedProofChain);
        }
        assert(genesis_key@ =~= chain.root_spec());
        if !section_auth.self_verify() || section_auth.value.elders.len() == 0 {
            return Err(Error::UntrustedSectionAuthProvider);
        }
        if section_auth.value.public_key_set.len() < crate::crypto::PK_LEN {
            return Err(Error::UntrustedSectionAuthProvider);
        }
        match bls_set_key(&section_auth.value.public_key_set) {
            Some(k) => {
                if !(k == section_auth.sig.public_key) {
                    proof {
                        if k@ == section_auth.sig.public_key@ {
                            assert(k@ =~= section_auth.sig.public_key@);
                        }
                    }
                    return Err(Error::UntrustedSectionAuthProvider);
                }
                assert(k@ =~= section_auth.sig.public_key@);
            },
            None => {
                return Err(Error::UntrustedSectionAuthProvider);
            },
        }
        if !chain.self_verify() {
            return Err(Error::UntrustedProofChain);
        }
        let s = Section { genesis_key, chain, section_auth, section_peers: SectionPeers::new() };
        assert(s.chain.has(s.chain.last_spec()));
        Ok(s)
    }

    /// Replaces the Elders with `new_sap`, whose key `key_sig.public_key`
    /// signed with `key_sig.signature`. Accepted iff the new prefix equals or
    /// extends ours, the SAP is signed with its key set's main key and its
    /// signature verifies, and the chain accepts the new key. On acceptance the
    /// SAP is replaced when its key is the chain's last key, and members
    /// outside our prefix are dropped; on refusal nothing changes.
    pub fn update_elders(&mut self, new_sap: SignedSap, key_sig: KeyedSig) -> (r: bool)
        requires
            old(self).wf(),
        ensures
            final(self).wf(),
            r == ((new_sap.value.prefix@ == old(self).section_auth.value.prefix@ || prefix_extends(
                new_sap.value.prefix@,
                old(self).section_auth.value.prefix@,
            )) && new_sap.value.prefix.wf() && sap_acceptable(&new_sap) && old(self).chain.has(key_sig.public_key@)
                && crate::crypto::bls_sig_valid(key_sig.public_key@, new_sap.sig.public_key@, key_sig.signature@)),
            !r ==> *final(self) == *old(self),
            old(self).chain.is_prefix_of(&final(self).chain),
            final(self).chain.root_spec() == old(self).chain.root_spec(),
            r ==> final(self).chain.has(new_sap.sig.public_key@),
            r && !old(self).chain.has(new_sap.sig.public_key@) ==> final(self).chain.has_link(
                key_sig.public_key@,
                new_sap.sig.public_key@,
                key_sig.signature@,
            ),
            old(self).chain.valid() ==> final(self).chain.valid(),
            final(self).chain.len_spec() >= old(self).chain.len_spec(),
            r && new_sap.sig.public_key@ == final(self).chain.last_spec() ==> final(self).section_auth == new_sap,
            r && new_sap.sig.public_key@ != final(self).chain.last_spec() ==> final(self).section_auth == old(self).section_auth,
            r ==> final(self).section_peers.all_match(final(self).section_auth.value.prefix@),
            r && new_sap.sig.public_key@ == final(self).chain.last_spec() ==> final(self).coherent(),
            final(self).genesis_key == old(self).genesis_key,
    {
        let same = new_sap.value.prefix.same_as(&self.section_auth.value.prefix);
        if !same && !new_sap.value.prefix.is_extension_of(&self.section_auth.value.prefix) {
            return false;
        }
        if new_sap.value.prefix.bit_count() > NAME_BITS {
            return false;
        }
        if !new_sap.self_verify() || new_sap.value.elders.len() == 0 {
            return false;
        }
        if new_sap.value.public_key_set.len() < crate::crypto::PK_LEN {
            return false;
        }
        match bls_set_key(&new_sap.value.public_key_set) {
            Some(k) => {
                if !(k == new_sap.sig.public_key) {
                    proof {
                        if k@ == new_sap.sig.public_key@ {
                            assert(k@ =~= new_sap.sig.public_key@);
                        }
                    }
                    return false;
                }
                assert(k@ =~= new_sap.sig.public_key@);
            },
            None => {
                return false;
            },
        }
        let ghost old_self = *self;
        let res = self.chain.insert(&key_sig.public_key, copy_bytes(&new_sap.sig.public_key), copy_bytes(&key_sig.signature));
        if res.is_err() {
            return false;
        }
        assert(self.chain.has(new_sap.sig.public_key@));
        if new_sap.sig.public_key == *self.chain.last_key() {
            assert(new_sap.sig.public_key@ =~= self.chain.last_spec());
            self.section_auth = new_sap;
        } else {
            proof {
                if new_sap.sig.public_key@ == self.chain.last_spec() {
                    assert(new_sap.sig.public_key@ =~= self.chain.last_spec());
                }
            }
        }
        proof {
            assert(self.chain.root_spec() == old_self.chain.root_spec());
            let k = old_self.section_auth.sig.public_key@;
            if self.section_auth == old_self.section_auth {
                assert(old_self.chain.has(k));
                let i = choose|i: int| 0 <= i < old_self.chain.keys@.len() && #[trigger] old_self.chain.key(i) == k;
                assert(self.chain.key(i) == k);
            }
        }
        self.section_peers.retain(&self.section_auth.value.prefix);
        true
    }

    /// Merges `proof_chain` into our chain and adopts `other` as our SAP when
    /// its key is then our last key.
    pub fn merge_chain(&mut self, other: &SignedSap, proof_chain: &SectionChain) -> (r: Result<(), Error>)
        requires
            old(self).wf(),
            proof_chain.wf(),
            other.value.prefix.wf(),
        ensures
            final(self).wf(),
            r is Ok <==> (old(self).chain.root_spec() == proof_chain.root_spec() && proof_chain.valid()),
            r matches Err(e) ==> e is UntrustedProofChain && *final(self) == *old(self),
            old(self).chain.is_prefix_of(&final(self).chain),
            old(self).chain.valid() ==> final(self).chain.valid(),
            r is Ok ==> forall|k: Seq<u8>| #[trigger] final(self).chain.has(k) <==> (old(self).chain.has(k) || proof_chain.has(k)),
            r is Ok && other.sig.public_key@ == final(self).chain.last_spec() ==> final(self).section_auth@ == other@
                && final(self).coherent(),
            r is Ok && other.sig.public_key@ != final(self).chain.last_spec() ==> final(self).section_auth == old(self).section_auth,
            (forall|k: Seq<u8>| #[trigger] proof_chain.has(k) ==> old(self).chain.has(k)) ==> final(self).chain == old(self).chain,
            old(self).section_auth@ == other@ ==> final(self).section_auth@ == old(self).section_auth@,
            final(self).section_peers == old(self).section_peers,
            final(self).genesis_key == old(self).genesis_key,
    {
        let ghost old_self = *self;
        match self.chain.merge(proof_chain) {
            Ok(()) => {},
            Err(_) => {
                return Err(Error::UntrustedProofChain);
            },
        }
        proof {
            let k = old_self.section_auth.sig.public_key@;
            let i = choose|i: int| 0 <= i < old_self.chain.keys@.len() && #[trigger] old_self.chain.key(i) == k;
            assert(self.chain.key(i) == k);
        }
        if other.sig.public_key == *self.chain.last_key() {
            assert(other.sig.public_key@ =~= self.chain.last_spec());
            self.section_auth = other.duplicate();
        } else {
            proof {
                if other.sig.public_key@ == self.chain.last_spec() {
                    assert(other.sig.public_key@ =~= self.chain.last_spec());
                }
            }
        }
        Ok(())
    }

    /// The member state is under our prefix, signed by a key of our chain,
    /// and verifies.
    pub open spec fn trusts(&self, e: SignedNodeState) -> bool {
        admitted(e, self.chain, self.section_auth.value.prefix@)
    }

    /// Records a member state that is under our prefix, signed by a key of
    /// our chain, and verifies. Returns whether the roster changed.
    pub fn update_member(&mut self, node_state: SignedNodeState) -> (r: bool)
        requires
            old(self).wf(),
        ensures
            final(self).wf(),
            r == (old(self).trusts(node_state) && crate::roster::update_accepts(old(self).section_peers.members@, node_state)),
            final(self).section_peers.members@ == merge_step(
                old(self).section_peers.members@,
                node_state,
                old(self).chain,
                old(self).section_auth.value.prefix@,
            ),
            r ==> prefix_matches(old(self).section_auth.value.prefix@, node_state.value.peer.name@),
            old(self).section_peers.all_match(old(self).section_auth.value.prefix@) ==> final(self).section_peers.all_match(
                final(self).section_auth.value.prefix@,
            ),
            final(self).chain == old(self).chain,
            final(self).section_auth == old(self).section_auth,
            final(self).genesis_key == old(self).genesis_key,
    {
        if !self.section_auth.value.prefix.matches(&node_state.value.peer.name) || !self.chain.has_key(
            &node_state.sig.public_key,
        ) || !node_state.self_verify() {
            return false;
        }
        let ghost before = self.section_peers;
        let ghost e = node_state;
        let r = self.section_peers.update(node_state);
        proof {
            let p = self.section_auth.value.prefix@;
            if before.all_match(p) && r {
                assert forall|k: int| 0 <= k < self.section_peers.members@.len() implies prefix_matches(
                    p,
                    #[trigger] self.section_peers.name_at(k),
                ) by {
                    if k < before.members@.len() && self.section_peers.members@[k] == before.members@[k] {
                        assert(prefix_matches(p, before.name_at(k)));
                    } else {
                        assert(self.section_peers.members@[k] == e);
                    }
                }
            }
        }
        r
    }

    /// Records each trusted member state of `members`, in order, then drops
    /// the members outside our prefix.
    pub fn merge_members(&mut self, members: Option<SectionPeers>)
        requires
            old(self).wf(),
        ensures
            final(self).wf(),
            final(self).section_peers.members@ == crate::roster::retained(
                match members {
                    Some(p) => merged(old(self).section_peers.members@, p.members@, old(self).chain, old(self).section_auth.value.prefix@),
                    None => old(self).section_peers.members@,
                },
                old(self).section_auth.value.prefix@,
            ),
            final(self).section_peers.all_match(final(self).section_auth.value.prefix@),
            final(self).chain == old(self).chain,
            final(self).section_auth == old(self).section_auth,
            final(self).genesis_key == old(self).genesis_key,
    {
        if let Some(peers) = members {
            let ghost given = peers.members@;
            let mut rest = peers.members;
            let mut tail: Vec<SignedNodeState> = Vec::new();
            while rest.len() > 0
                invariant
                    given == rest@ + tail@.reverse(),
                decreases rest@.len(),
            {
                let m = rest.pop().unwrap();
                tail.push(m);
                assert(given =~= rest@ + tail@.reverse());
            }
            assert(tail@.reverse() =~= given);
            let n = tail.len();
            let mut i: usize = 0;
            let ghost start = self.section_peers.members@;
            while tail.len() > 0
                invariant
                    self.wf(),
                    tail@.len() + i == n,
                    n == given.len(),
                    tail@.reverse() == given.subrange(i as int, n as int),
                    self.section_peers.members@ == merged(start, given.subrange(0, i as int), self.chain, self.section_auth.value.prefix@),
                    self.chain == old(self).chain,
                    self.section_auth == old(self).section_auth,
                    self.genesis_key == old(self).genesis_key,
                decreases tail@.len(),
            {
                let ghost before = tail@;
                let m = tail.pop().unwrap();
                assert(m == given[i as int]) by {
                    assert(before.reverse()[0] == before[before.len() - 1]);
                }
                assert(tail@.reverse() =~= given.subrange(i as int + 1, n as int)) by {
                    assert forall|q: int| 0 <= q < tail@.len() implies tail@.reverse()[q] == given.subrange(i as int + 1, n as int)[q] by {
                        assert(before.reverse()[q + 1] == given.subrange(i as int, n as int)[q + 1]);
                    }
                }
                let ghost sub = given.subrange(0, i as int + 1);
                assert(sub.drop_last() =~= given.subrange(0, i as int));
                let _ = self.update_member(m);
                i += 1;
            }
            assert(given.subrange(0, n as int) =~= given);
        }
        self.section_peers.retain(&self.section_auth.value.prefix);
    }

    /// Our section's prefix.
    pub fn prefix(&self) -> (r: Prefix)
        ensures
            r@ == self.section_auth.value.prefix@,
    {
        self.section_auth.value.prefix.duplicate()
    }

    /// The genesis key.
    pub fn genesis_key(&self) -> (r: &Vec<u8>)
        ensures
            r@ == self.genesis_key@,
    {
        &self.genesis_key
    }

    /// The chain of section keys.
    pub fn chain(&self) -> (r: &SectionChain)
        ensures
            *r == self.chain,
    {
        &self.chain
    }

    /// The current SAP.
    pub fn authority_provider(&self) -> (r: &SectionAuthorityProvider)
        ensures
            *r == self.section_auth.value,
    {
        &self.section_auth.value
    }

    /// The current SAP with its section signature.
    pub fn section_signed_authority_provider(&self) -> (r: &SignedSap)
        ensures
            *r == self.section_auth,
    {
        &self.section_auth
    }

    /// The member roster.
    pub fn members(&self) -> (r: &SectionPeers)
        ensures
            *r == self.section_peers,
    {
        &self.section_peers
    }

    /// Whether `name` is one of our Elders.
    pub fn is_elder(&self, name: &Vec<u8>) -> (r: bool)
        ensures
            r == self.section_auth.value.elder_names().contains(name@),
    {
        self.section_auth.value.contains_elder(name)
    }

    /// Members that are joined, or that are Elders.
    pub fn active_members(&self) -> (r: Vec<Peer>)
        ensures
            peers_view(r@) == peers_kept(self.section_peers.members@, PeerFilter::Active, self.section_auth.value.elder_names()),
    {
        self.section_peers.collect(PeerFilter::Active, &self.section_auth.value)
    }

    /// Joined members that are not Elders.
    pub fn adults(&self) -> (r: Vec<Peer>)
        ensures
            peers_view(r@) == peers_kept(self.section_peers.members@, PeerFilter::Adults, self.section_auth.value.elder_names()),
    {
        self.section_peers.collect(PeerFilter::Adults, &self.section_auth.value)
    }

    /// Joined members that are not Elders.
    pub fn live_adults(&self) -> (r: Vec<Peer>)
        ensures
            peers_view(r@) == peers_kept(self.section_peers.members@, PeerFilter::LiveAdults, self.section_auth.value.elder_names()),
    {
        self.section_peers.collect(PeerFilter::LiveAdults, &self.section_auth.value)
    }

    /// The first joined member with address `addr`.
    pub fn find_joined_member_by_addr(&self, addr: &Vec<u8>) -> (r: Option<Peer>)
        ensures
            r matches Some(p) ==> exists|i: int|
                0 <= i < self.section_peers.members@.len() && #[trigger] self.section_peers.members@[i].value.peer@ == p@
                    && self.section_peers.members@[i].value.state is Joined && p.addr@ == addr@,
            r is None ==> forall|i: int|
                0 <= i < self.section_peers.members@.len() && (#[trigger] self.section_peers.members@[i]).value.state is Joined
                    ==> self.section_peers.members@[i].value.peer.addr@ != addr@,
    {
        self.section_peers.find_joined_by_addr(addr)
    }

    /// Tries to split: the next bit after our prefix (`our_name`'s bit there)
    /// names our half. Succeeds when the prefix is not at full length and
    /// each half holds at least `RECOMMENDED_SECTION_SIZE` eligible members;
    /// returns the Elder candidates of our half and of the sibling half.
    pub fn try_split(&self, our_name: &Vec<u8>, excluded: &Vec<Vec<u8>>) -> (r: Option<(ElderCandidates, ElderCandidates)>)
        requires
            self.wf(),
        ensures
            r is Some <==> split_ready(self, our_name@, name_set(excluded@)),
            r matches Some((a, b)) ==> {
                let p = self.section_auth.value.prefix@;
                let nb = name_bit(our_name@, p.len() as int);
                &&& a.prefix@ == p.push(nb)
                &&& b.prefix@ == p.push(!nb)
                &&& a.prefix.wf() && b.prefix.wf()
                &&& crate::name::prefix_siblings(a.prefix@, b.prefix@)
                &&& (prefix_matches(p, our_name@) ==> prefix_matches(a.prefix@, our_name@))
                &&& eligible_count(self.section_peers.members@, name_set(excluded@), a.prefix@) >= RECOMMENDED_SECTION_SIZE
                &&& eligible_count(self.section_peers.members@, name_set(excluded@), b.prefix@) >= RECOMMENDED_SECTION_SIZE
                &&& is_top(peers_view(a.elders@), self.section_peers.candidates(name_set(excluded@), a.prefix@), ELDER_SIZE as nat, self.section_auth.value.elder_names(), prefix_name(a.prefix@))
                &&& is_top(peers_view(b.elders@), self.section_peers.candidates(name_set(excluded@), b.prefix@), ELDER_SIZE as nat, self.section_auth.value.elder_names(), prefix_name(b.prefix@))
            },
    {
        let prefix = &self.section_auth.value.prefix;
        let bc = prefix.bit_count();
        if bc >= NAME_BITS {
            return None;
        }
        let nb = bit(our_name, bc);
        let ours = prefix.pushed(nb);
        let other = prefix.pushed(!nb);
        let our_size = self.section_peers.count_eligible(excluded, &ours);
        let other_size = self.section_peers.count_eligible(excluded, &other);
        if our_size < RECOMMENDED_SECTION_SIZE || other_size < RECOMMENDED_SECTION_SIZE {
            return None;
        }
        let our_elders = self.section_peers.elder_candidates_matching_prefix(&ours, ELDER_SIZE, &self.section_auth.value, excluded);
        let other_elders = self.section_peers.elder_candidates_matching_prefix(&other, ELDER_SIZE, &self.section_auth.value, excluded);
        proof {
            let p = prefix@;
            assert(ours@.drop_last() =~= p);
            assert(other@.drop_last() =~= p);
        }
        Some((ElderCandidates { elders: our_elders, prefix: ours }, ElderCandidates { elders: other_elders, prefix: other }))
    }

    /// New Elder candidate sets: the two halves when the section splits;
    /// otherwise one set for our prefix when the best candidates differ from
    /// the current Elders and are at least a quorum of them; otherwise none.
    pub fn promote_and_demote_elders(&self, our_name: &Vec<u8>, excluded: &Vec<Vec<u8>>) -> (r: Vec<ElderCandidates>)
        requires
            self.wf(),
        ensures
            split_ready(self, our_name@, name_set(excluded@)) ==> r@.len() == 2 && r@[0].prefix@ == self.section_auth.value.prefix@.push(
                name_bit(our_name@, self.section_auth.value.prefix@.len() as int),
            ) && crate::name::prefix_siblings(r@[0].prefix@, r@[1].prefix@) && is_top(
                peers_view(r@[0].elders@),
                self.section_peers.candidates(name_set(excluded@), r@[0].prefix@),
                ELDER_SIZE as nat,
                self.section_auth.value.elder_names(),
                prefix_name(r@[0].prefix@),
            ) && is_top(
                peers_view(r@[1].elders@),
                self.section_peers.candidates(name_set(excluded@), r@[1].prefix@),
                ELDER_SIZE as nat,
                self.section_auth.value.elder_names(),
                prefix_name(r@[1].prefix@),
            ),
            !split_ready(self, our_name@, name_set(excluded@)) ==> r@.len() <= 1 && forall|s: Seq<PeerView>|
                #[trigger] is_top(
                    s,
                    self.section_peers.candidates(name_set(excluded@), Seq::empty()),
                    ELDER_SIZE as nat,
                    self.section_auth.value.elder_names(),
                    prefix_name(self.section_auth.value.prefix@),
                ) ==> (r@.len() == 1 <==> (names_of(s) != self.section_auth.value.elder_names() && s.len()
                    >= crate::supermajority_spec(self.section_auth.value.elders@.len()))) && (r@.len() == 1 ==> peers_view(
                    r@[0].elders@,
                ) == s && r@[0].prefix@ == self.section_auth.value.prefix@),
    {
        if let Some((a, b)) = self.try_split(our_name, excluded) {
            let r = vec![a, b];
            assert(r@[0] == a && r@[1] == b);
            return r;
        }
        let sap = &self.section_auth.value;
        let expected = self.section_peers.elder_candidates(ELDER_SIZE, sap, excluded);
        let ghost e = peers_view(expected@);
        proof {
            assert forall|s: Seq<PeerView>|
                #[trigger] is_top(
                    s,
                    self.section_peers.candidates(name_set(excluded@), Seq::empty()),
                    ELDER_SIZE as nat,
                    self.section_auth.value.elder_names(),
                    prefix_name(self.section_auth.value.prefix@),
                ) implies s == e by {
                crate::roster::lemma_top_unique(
                    s,
                    e,
                    self.section_peers.candidates(name_set(excluded@), Seq::empty()),
                    ELDER_SIZE as nat,
                    self.section_auth.value.elder_names(),
                    prefix_name(self.section_auth.value.prefix@),
                );
            }
        }
        let same = names_subset(&expected, &sap.elders) && names_subset(&sap.elders, &expected);
        proof {
            if same {
                assert(names_of(e) =~= sap.elder_names());
            } else {
                if names_of(e) == sap.elder_names() {
                    assert(names_of(e).subset_of(names_of(peers_view(sap.elders@))));
                }
            }
        }
        if same {
            return vec![];
        }
        if expected.len() < crate::supermajority(sap.elders.len()) {
            return vec![];
        }
        let r = vec![ElderCandidates { elders: expected, prefix: sap.prefix.duplicate() }];
        assert(r@[0].elders@ == expected@);
        r
    }

    /// The section of the first node of a network: `peer`, at the genesis
    /// age, is its only Elder and member; `pk_set` is the genesis key set and
    /// `sk_share` the secret share that signs for it alone.
    pub fn first_node(peer: Peer, pk_set: Vec<u8>, sk_share: Vec<u8>) -> (r: Result<(Section, SectionKeyShare), Error>)
        requires
            peer.name@.len() == crate::name::NAME_LEN,
        ensures
            r is Ok <==> genesis_ok(peer@, pk_set@, sk_share@),
            r matches Ok((s, ks)) ==> {
                let key = bls_set_public_key(pk_set@);
                &&& s.wf()
                &&& s.coherent()
                &&& s.chain.len_spec() == 1
                &&& s.genesis_key@ == key
                &&& s.chain.root_spec() == key
                &&& s.chain.last_spec() == key
                &&& s.section_auth.value@ == genesis_sap(peer@, pk_set@)
                &&& s.section_peers.members@.len() == 1
                &&& s.section_peers.members@[0].value.peer@ == genesis_peer(peer@)
                &&& s.section_peers.members@[0].value.state is Joined
                &&& ks.index == 0
                &&& ks.public_key_set@ == pk_set@
                &&& ks.secret_key_share@ == sk_share@
            },
    {
        let ghost pv = peer@;
        let mut peer = peer;
        peer.age = GENESIS_AGE;
        if pk_set.len() < crate::crypto::PK_LEN {
            return Err(Error::InvalidPayload);
        }
        let key = match bls_set_key(&pk_set) {
            Some(k) => k,
            None => return Err(Error::InvalidPayload),
        };
        let sap = SectionAuthorityProvider {
            prefix: Prefix::root(),
            public_key_set: copy_bytes(&pk_set),
            elders: vec![peer.duplicate()],
        };
        assert(sap@.elders =~= seq![genesis_peer(pv)]) by {
            assert(peers_view(sap.elders@)[0] == peer@);
        }
        let sig = match bls_sign(&sk_share, &sap.to_bytes()) {
            Some(s) => s,
            None => return Err(Error::InvalidSignatureShare),
        };
        let section_auth = SignedSap { value: sap, sig: KeyedSig { public_key: copy_bytes(&key), signature: sig } };
        let chain = SectionChain::new(copy_bytes(&key));
        let mut section = match Section::new(copy_bytes(&key), chain, section_auth) {
            Ok(s) => s,
            Err(e) => return Err(e),
        };
        let state = NodeState::joined(peer);
        let state_sig = match bls_sign(&sk_share, &state.to_bytes()) {
            Some(s) => s,
            None => return Err(Error::InvalidSignatureShare),
        };
        let accepted = section.section_peers.update(SignedNodeState {
            value: state,
            sig: KeyedSig { public_key: key, signature: state_sig },
        });
        assert(accepted);
        Ok((section, SectionKeyShare { public_key_set: pk_set, index: 0, secret_key_share: sk_share }))
    }
}

} // verus!
