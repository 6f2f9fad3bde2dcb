//! Peers, section authority providers (SAPs), member states and the
//! section-signed wrappers around them, with their canonical encodings.

use crate::bytes::{copy_bytes, enc_bytes, be8, push_bytes, push_u64};
use crate::crypto::{bls_sig_valid, bls_verify};
use crate::name::Prefix;
use vstd::prelude::*;

verus! {

/// What the library reads of a peer.
pub struct PeerView {
    pub name: Seq<u8>,
    pub addr: Seq<u8>,
    pub age: u8,
}

/// A node: its name, its network address (encoded) and its age.
#[derive(Clone, Debug)]
pub struct Peer {
    pub name: Vec<u8>,
    pub addr: Vec<u8>,
    pub age: u8,
}

impl Peer {
    pub open spec fn view(&self) -> PeerView {
        PeerView { name: self.name@, addr: self.addr@, age: self.age }
    }

    /// A copy of the peer.
    pub fn duplicate(&self) -> (r: Peer)
        ensures
            r@ == self@,
    {
        Peer { name: copy_bytes(&self.name), addr: copy_bytes(&self.addr), age: self.age }
    }
}

/// The views of a sequence of peers.
pub open spec fn peers_view(s: Seq<Peer>) -> Seq<PeerView> {
    s.map_values(|p: Peer| p@)
}

/// A copy of a list of peers.
pub fn copy_peers(v: &Vec<Peer>) -> (r: Vec<Peer>)
    ensures
        peers_view(r@) == peers_view(v@),
{
    let mut r: Vec<Peer> = Vec::new();
    let mut i: usize = 0;
    while i < v.len()
        invariant
            i <= v@.len(),
            r@.len() == i,
            peers_view(r@) == peers_view(v@.subrange(0, i as int)),
        decreases v@.len() - i,
    {
        let ghost old_r = r@;
        r.push(v[i].duplicate());
        proof {
            let n = i as int;
            assert forall|j: int| 0 <= j < n + 1 implies #[trigger] peers_view(r@)[j] == peers_view(
                v@.subrange(0, n + 1),
            )[j] by {
                if j < n {
                    assert(peers_view(old_r)[j] == peers_view(v@.subrange(0, n))[j]);
                    assert(r@[j] == old_r[j]);
                }
            }
            assert(peers_view(r@) =~= peers_view(v@.subrange(0, n + 1)));
        }
        i += 1;
    }
    assert(v@.subrange(0, i as int) =~= v@);
    r
}

/// A public key with a signature made under it.
#[derive(Clone, Debug)]
pub struct KeyedSig {
    pub public_key: Vec<u8>,
    pub signature: Vec<u8>,
}

impl KeyedSig {
    /// A copy.
    pub fn duplicate(&self) -> (r: KeyedSig)
        ensures
            r.public_key@ == self.public_key@,
            r.signature@ == self.signature@,
    {
        KeyedSig { public_key: copy_bytes(&self.public_key), signature: copy_bytes(&self.signature) }
    }
}

/// What the library reads of a SAP.
pub struct SapView {
    pub prefix: Seq<bool>,
    pub key_set: Seq<u8>,
    pub elders: Seq<PeerView>,
}

/// A section authority provider: the section's prefix, its BLS public key
/// set (encoded) and its Elders.
#[derive(Clone, Debug)]
pub struct SectionAuthorityProvider {
    pub prefix: Prefix,
    pub public_key_set: Vec<u8>,
    pub elders: Vec<Peer>,
}

/// The names in a sequence of peers.
pub open spec fn names_of(s: Seq<PeerView>) -> Set<Seq<u8>> {
    Set::new(|n: Seq<u8>| exists|i: int| 0 <= i < s.len() && #[trigger] s[i].name == n)
}

impl SectionAuthorityProvider {
    pub open spec fn view(&self) -> SapView {
        SapView { prefix: self.prefix@, key_set: self.public_key_set@, elders: peers_view(self.elders@) }
    }

    /// The names of the Elders.
    pub open spec fn elder_names(&self) -> Set<Seq<u8>> {
        names_of(self@.elders)
    }

    /// A copy of the SAP.
    pub fn duplicate(&self) -> (r: SectionAuthorityProvider)
        ensures
            r@ == self@,
    {
        SectionAuthorityProvider {
            prefix: self.prefix.duplicate(),
            public_key_set: copy_bytes(&self.public_key_set),
            elders: copy_peers(&self.elders),
        }
    }

    /// Whether `name` is one of the Elders.
    pub fn contains_elder(&self, name: &Vec<u8>) -> (r: bool)
        ensures
            r == self.elder_names().contains(name@),
    {
        let mut i: usize = 0;
        while i < self.elders.len()
            invariant
                i <= self.elders@.len(),
                forall|j: int| 0 <= j < i ==> #[trigger] self.elders@[j].name@ != name@,
            decreases self.elders@.len() - i,
        {
            if self.elders[i].name == *name {
                assert(self.elders@[i as int].name@ =~= name@);
                assert(self@.elders[i as int].name == name@);
                return true;
            }
            i += 1;
        }
        proof {
            if self.elder_names().contains(name@) {
                let j = choose|j: int| 0 <= j < self@.elders.len() && #[trigger] self@.elders[j].name == name@;
                assert(self.elders@[j].name@ == name@);
            }
        }
        false
    }

    /// The section's main public key, from its key set; `None` when the key
    /// set does not decode.
    pub fn section_key(&self) -> (r: Option<Vec<u8>>)
        ensures
            r matches Some(k) ==> k@ == crate::crypto::bls_set_public_key(self.public_key_set@),
    {
        if self.public_key_set.len() < crate::crypto::PK_LEN {
            return None;
        }
        crate::crypto::bls_set_key(&self.public_key_set)
    }
}

/// A prefix as its length and one byte per bit.
pub open spec fn enc_prefix(bits: Seq<bool>) -> Seq<u8> {
    be8(bits.len()) + bits.map_values(|b: bool| if b { 1u8 } else { 0u8 })
}

/// A peer's encoding.
pub open spec fn enc_peer(p: PeerView) -> Seq<u8> {
    enc_bytes(p.name) + enc_bytes(p.addr) + seq![p.age]
}

/// The concatenated encodings of a sequence of peers.
pub open spec fn enc_peer_list(s: Seq<PeerView>) -> Seq<u8>
    decreases s.len(),
{
    if s.len() == 0 {
        Seq::empty()
    } else {
        enc_peer_list(s.drop_last()) + enc_peer(s.last())
    }
}

/// A list of peers preceded by its length.
pub open spec fn enc_peers(s: Seq<PeerView>) -> Seq<u8> {
    be8(s.len()) + enc_peer_list(s)
}

/// The bytes that a section signs for a SAP.
pub open spec fn sap_bytes(s: SapView) -> Seq<u8> {
    enc_prefix(s.prefix) + enc_bytes(s.key_set) + enc_peers(s.elders)
}

/// Appends the encoding of a prefix.
pub fn push_prefix(out: &mut Vec<u8>, p: &Prefix)
    ensures
        final(out)@ == old(out)@ + enc_prefix(p@),
{
    let ghost start = out@;
    push_u64(out, p.bits.len() as u64);
    let ghost mid = out@;
    let mut i: usize = 0;
    while i < p.bits.len()
        invariant
            i <= p@.len(),
            mid == start + be8(p@.len()),
            out@ == mid + p@.subrange(0, i as int).map_values(|b: bool| if b { 1u8 } else { 0u8 }),
        decreases p@.len() - i,
    {
        out.push(if p.bits[i] { 1u8 } else { 0u8 });
        i += 1;
        assert(out@ =~= mid + p@.subrange(0, i as int).map_values(|b: bool| if b { 1u8 } else { 0u8 }));
    }
    assert(p@.subrange(0, i as int) =~= p@);
    assert(out@ =~= start + enc_prefix(p@));
}

/// Appends the encoding of a peer.
pub fn push_peer(out: &mut Vec<u8>, p: &Peer)
    ensures
        final(out)@ == old(out)@ + enc_peer(p@),
{
    push_bytes(out, &p.name);
    push_bytes(out, &p.addr);
    out.push(p.age);
    assert(final(out)@ =~= old(out)@ + enc_peer(p@));
}

/// Appends the encoding of a list of peers.
pub fn push_peers(out: &mut Vec<u8>, v: &Vec<Peer>)
    ensures
        final(out)@ == old(out)@ + enc_peers(peers_view(v@)),
{
    let ghost start = out@;
    push_u64(out, v.len() as u64);
    let ghost mid = out@;
    let mut i: usize = 0;
    while i < v.len()
        invariant
            i <= v@.len(),
            mid == start + be8(v@.len()),
            out@ == mid + enc_peer_list(peers_view(v@.subrange(0, i as int))),
        decreases v@.len() - i,
    {
        let ghost before = out@;
        push_peer(out, &v[i]);
        proof {
            let s = peers_view(v@.subrange(0, i as int + 1));
            assert(s.drop_last() =~= peers_view(v@.subrange(0, i as int)));
            assert(s.last() == v@[i as int]@);
        }
        i += 1;
    }
    assert(v@.subrange(0, i as int) =~= v@);
    assert(peers_view(v@).len() == v@.len());
    assert(out@ =~= start + enc_peers(peers_view(v@)));
}

impl SectionAuthorityProvider {
    /// The canonical encoding that the section signs.
    pub fn to_bytes(&self) -> (r: Vec<u8>)
        ensures
            r@ == sap_bytes(self@),
    {
        let mut out: Vec<u8> = Vec::new();
        push_prefix(&mut out, &self.prefix);
        push_bytes(&mut out, &self.public_key_set);
        push_peers(&mut out, &self.elders);
        assert(out@ =~= sap_bytes(self@));
        out
    }
}

/// A SAP signed by a section key.
#[derive(Clone, Debug)]
pub struct SignedSap {
    pub value: SectionAuthorityProvider,
    pub sig: KeyedSig,
}

/// What the library reads of a signed SAP.
pub struct SignedSapView {
    pub value: SapView,
    pub key: Seq<u8>,
    pub signature: Seq<u8>,
}

impl SignedSap {
    pub open spec fn view(&self) -> SignedSapView {
        SignedSapView { value: self.value@, key: self.sig.public_key@, signature: self.sig.signature@ }
    }

    /// The signature verifies over the SAP's encoding.
    pub open spec fn verified(&self) -> bool {
        bls_sig_valid(self.sig.public_key@, sap_bytes(self.value@), self.sig.signature@)
    }

    /// Whether the signature verifies over the SAP's encoding.
    pub fn self_verify(&self) -> (r: bool)
        ensures
            r == self.verified(),
    {
        bls_verify(&self.sig.public_key, &self.value.to_bytes(), &self.sig.signature)
    }

    /// A copy.
    pub fn duplicate(&self) -> (r: SignedSap)
        ensures
            r@ == self@,
            r.value.prefix.wf() == self.value.prefix.wf(),
            r.value@ == self.value@,
            r.sig.public_key@ == self.sig.public_key@,
            r.sig.signature@ == self.sig.signature@,
    {
        SignedSap { value: self.value.duplicate(), sig: self.sig.duplicate() }
    }
}

/// Where a member stands.
#[derive(Clone, Debug)]
pub enum MembershipState {
    Joined,
    Left,
    /// Relocating to the given destination name.
    Relocated(Vec<u8>),
}

/// A member's state.
#[derive(Clone, Debug)]
pub struct NodeState {
    pub peer: Peer,
    pub state: MembershipState,
}

/// The encoding of a membership state.
pub open spec fn enc_state(s: MembershipState) -> Seq<u8> {
    match s {
        MembershipState::Joined => seq![0u8],
        MembershipState::Left => seq![1u8],
        MembershipState::Relocated(d) => seq![2u8] + enc_bytes(d@),
    }
}

/// The bytes that a section signs for a member state.
pub open spec fn node_state_bytes(n: NodeState) -> Seq<u8> {
    enc_peer(n.peer@) + enc_state(n.state)
}

impl MembershipState {
    /// A copy.
    pub fn duplicate(&self) -> (r: MembershipState)
        ensures
            enc_state(r) == enc_state(*self),
            r is Joined <==> self is Joined,
            r is Left <==> self is Left,
    {
        match self {
            MembershipState::Joined => MembershipState::Joined,
            MembershipState::Left => MembershipState::Left,
            MembershipState::Relocated(d) => MembershipState::Relocated(copy_bytes(d)),
        }
    }
}

impl NodeState {
    /// A copy.
    pub fn duplicate(&self) -> (r: NodeState)
        ensures
            r.peer@ == self.peer@,
            node_state_bytes(r) == node_state_bytes(*self),
            r.state is Left <==> self.state is Left,
    {
        NodeState { peer: self.peer.duplicate(), state: self.state.duplicate() }
    }

    /// A joined member.
    pub fn joined(peer: Peer) -> (r: NodeState)
        ensures
            r.peer@ == peer@,
            r.state is Joined,
    {
        NodeState { peer, state: MembershipState::Joined }
    }

    /// The canonical encoding that the section signs.
    pub fn to_bytes(&self) -> (r: Vec<u8>)
        ensures
            r@ == node_state_bytes(*self),
    {
        let mut out: Vec<u8> = Vec::new();
        push_peer(&mut out, &self.peer);
        match &self.state {
            MembershipState::Joined => out.push(0u8),
            MembershipState::Left => out.push(1u8),
            MembershipState::Relocated(d) => {
                out.push(2u8);
                push_bytes(&mut out, d);
            },
        }
        assert(out@ =~= node_state_bytes(*self));
        out
    }
}

/// A member state signed by a section key.
#[derive(Clone, Debug)]
pub struct SignedNodeState {
    pub value: NodeState,
    pub sig: KeyedSig,
}

impl SignedNodeState {
    /// The signature verifies over the state's encoding.
    pub open spec fn verified(&self) -> bool {
        bls_sig_valid(self.sig.public_key@, node_state_bytes(self.value), self.sig.signature@)
    }

    /// Whether the signature verifies over the state's encoding.
    pub fn self_verify(&self) -> (r: bool)
        ensures
            r == self.verified(),
    {
        bls_verify(&self.sig.public_key, &self.value.to_bytes(), &self.sig.signature)
    }
}

} // verus!
