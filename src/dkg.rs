//! DKG bookkeeping: the ephemeral BLS keys that the participants of a
//! session exchange (each signed with its owner's ed25519 identity, with
//! double-key detection), and the sessions' vote-phase states.

use crate::bytes::{be8, copy_bytes, push_u64};
use crate::crypto::{
    bls_public_key, bls_public_of, content_name, ed25519_sig_valid, ed25519_sign, ed25519_signature_of, ed25519_verify,
    xor_name_of, bls_secret_decodes, ed25519_keypair_decodes,
};
use crate::dkg_engine::{dkg_all_votes, dkg_first_vote, dkg_handle_vote, dkg_state_new};
use crate::error::Error;
use crate::name::Prefix;
use crate::sap::{enc_peers, enc_prefix, names_of, peers_view, push_peers, push_prefix, Peer};
use vstd::prelude::*;

verus! {

/// Identifies a DKG session: the prefix, the candidate Elders and a generation.
#[derive(Clone, Debug)]
pub struct DkgSessionId {
    pub prefix: Prefix,
    pub elders: Vec<Peer>,
    pub generation: u64,
}

/// The bytes that identify a session.
pub open spec fn session_bytes(s: DkgSessionId) -> Seq<u8> {
    enc_prefix(s.prefix@) + be8(s.generation as nat) + enc_peers(peers_view(s.elders@))
}

impl DkgSessionId {
    /// A copy.
    pub fn duplicate(&self) -> (r: DkgSessionId)
        ensures
            session_bytes(r) == session_bytes(*self),
            r.hash_spec() == self.hash_spec(),
            peers_view(r.elders@) == peers_view(self.elders@),
            r.names() == self.names(),
    {
        DkgSessionId { prefix: self.prefix.duplicate(), elders: crate::sap::copy_peers(&self.elders), generation: self.generation }
    }

    /// The names of the participants.
    pub open spec fn names(&self) -> Set<Seq<u8>> {
        names_of(peers_view(self.elders@))
    }

    /// The session's hash.
    pub open spec fn hash_spec(&self) -> Seq<u8> {
        xor_name_of(session_bytes(*self))
    }

    /// The session's hash: the XOR name of its identifying bytes.
    pub fn hash(&self) -> (r: Vec<u8>)
        ensures
            r@ == self.hash_spec(),
    {
        let mut out: Vec<u8> = Vec::new();
        push_prefix(&mut out, &self.prefix);
        push_u64(&mut out, self.generation);
        push_peers(&mut out, &self.elders);
        assert(out@ =~= session_bytes(*self));
        content_name(&out)
    }

    /// The position of `name` among the participants.
    pub fn elder_index(&self, name: &Vec<u8>) -> (r: Option<usize>)
        ensures
            r matches Some(i) ==> i < self.elders@.len() && self.elders@[i as int].name@ == name@,
            r is None <==> !self.names().contains(name@),
    {
        let mut i: usize = 0;
        while i < self.elders.len()
            invariant
                i <= self.elders@.len(),
                forall|j: int| 0 <= j < i ==> #[trigger] self.elders@[j].name@ != name@,
            decreases self.elders@.len() - i,
        {
            if self.elders[i].name == *name {
                assert(self.elders@[i as int].name@ =~= name@);
                assert(peers_view(self.elders@)[i as int].name == name@);
                return Some(i);
            }
            i += 1;
        }
        proof {
            if self.names().contains(name@) {
                let j = choose|j: int| 0 <= j < peers_view(self.elders@).len() && #[trigger] peers_view(self.elders@)[j].name == name@;
                assert(self.elders@[j].name@ == name@);
            }
        }
        None
    }
}

/// An ephemeral key of a participant, signed with its identity.
#[derive(Clone, Debug)]
pub struct DkgKey {
    pub owner: Vec<u8>,
    pub key: Vec<u8>,
    pub sig: Vec<u8>,
}

/// The owners of a list of keys.
pub open spec fn owners(s: Seq<DkgKey>) -> Set<Seq<u8>> {
    Set::new(|n: Seq<u8>| exists|i: int| 0 <= i < s.len() && #[trigger] s[i].owner@ == n)
}

/// The key held for `owner` (meaningful when `owners(s)` contains it).
#[verifier::opaque]
pub open spec fn held_key(s: Seq<DkgKey>, owner: Seq<u8>) -> DkgKey {
    s[choose|j: int| 0 <= j < s.len() && #[trigger] s[j].owner@ == owner]
}

/// `owner`'s key went from `before` to `after`, and `done` tells whether the
/// owners are now exactly `names`.
#[verifier::opaque]
pub open spec fn key_recorded(before: Seq<DkgKey>, after: Seq<DkgKey>, owner: Seq<u8>, names: Set<Seq<u8>>, done: bool) -> bool {
    owners(after) == owners(before).insert(owner) && done == (owners(after) == names)
}

/// `e` reports that `owner` gave `key` with `sig` after `held`.
pub open spec fn is_double_key(e: Error, owner: Seq<u8>, key: Seq<u8>, sig: Seq<u8>, held: DkgKey) -> bool {
    match e {
        Error::DoubleKeyAttackDetected { owner: o, new_key: nk, new_sig: ns, old_key: ok, old_sig: os } => o@ == owner && nk@
            == key && ns@ == sig && ok@ == held.key@ && os@ == held.sig@,
        _ => false,
    }
}

/// Owners are unique.
pub open spec fn unique_owners(s: Seq<DkgKey>) -> bool {
    forall|i: int, j: int| 0 <= i < s.len() && 0 <= j < s.len() && i != j ==> (#[trigger] s[i]).owner@ != (#[trigger] s[j]).owner@
}

/// Our ephemeral secret for a session and the keys collected so far.
#[derive(Clone, Debug)]
pub struct DkgEphemeralKeys {
    pub session_hash: Vec<u8>,
    pub secret_key: Vec<u8>,
    pub pub_keys: Vec<DkgKey>,
}

/// A session's vote-phase state.
pub struct DkgStateEntry {
    pub session_hash: Vec<u8>,
    pub state: sn_sdkg::DkgState,
}

/// The DKG sessions a node takes part in.
pub struct DkgVoter {
    pub ephemeral: Vec<DkgEphemeralKeys>,
    pub states: Vec<DkgStateEntry>,
    pub last_received_dkg_msg_time: Option<u64>,
}

/// Checks a participant's ephemeral key: the owner takes part in the session
/// and signed the key with its identity (its name is its ed25519 public key).
pub fn check_key(session: &DkgSessionId, owner: &Vec<u8>, key: &Vec<u8>, sig: &Vec<u8>) -> (r: Result<(), Error>)
    ensures
        !session.names().contains(owner@) ==> (r matches Err(Error::NodeNotInDkgSession(n)) && n@ == owner@),
        session.names().contains(owner@) && !ed25519_sig_valid(owner@, key@, sig@) ==> r matches Err(Error::InvalidSignature),
        r is Ok <==> session.names().contains(owner@) && ed25519_sig_valid(owner@, key@, sig@),
{
    if session.elder_index(owner).is_none() {
        return Err(Error::NodeNotInDkgSession(copy_bytes(owner)));
    }
    if !ed25519_verify(owner, key, sig) {
        return Err(Error::InvalidSignature);
    }
    Ok(())
}

/// Whether the owners of `keys` are exactly the participants of `session`.
fn owners_complete(keys: &Vec<DkgKey>, session: &DkgSessionId) -> (r: bool)
    ensures
        r == (owners(keys@) == session.names()),
{
    let mut i: usize = 0;
    while i < keys.len()
        invariant
            i <= keys@.len(),
            forall|j: int| 0 <= j < i ==> session.names().contains(#[trigger] keys@[j].owner@),
        decreases keys@.len() - i,
    {
        if session.elder_index(&keys[i].owner).is_none() {
            proof {
                if owners(keys@) == session.names() {
                    assert(owners(keys@).contains(keys@[i as int].owner@));
                }
            }
            return false;
        }
        i += 1;
    }
    let mut k: usize = 0;
    while k < session.elders.len()
        invariant
            k <= session.elders@.len(),
            forall|j: int| 0 <= j < keys@.len() ==> session.names().contains(#[trigger] keys@[j].owner@),
            forall|j: int| 0 <= j < k ==> owners(keys@).contains(#[trigger] session.elders@[j].name@),
        decreases session.elders@.len() - k,
    {
        match find_owner(keys, &session.elders[k].name) {
            Some(q) => {},
            None => {
                proof {
                    assert(peers_view(session.elders@)[k as int].name == session.elders@[k as int].name@);
                    assert(session.names().contains(session.elders@[k as int].name@));
                }
                return false;
            },
        }
        k += 1;
    }
    proof {
        assert forall|n: Seq<u8>| session.names().contains(n) implies owners(keys@).contains(n) by {
            let j = choose|j: int| 0 <= j < peers_view(session.elders@).len() && #[trigger] peers_view(session.elders@)[j].name == n;
            assert(owners(keys@).contains(session.elders@[j].name@));
        }
        assert forall|n: Seq<u8>| owners(keys@).contains(n) implies session.names().contains(n) by {
            let j = choose|j: int| 0 <= j < keys@.len() && #[trigger] keys@[j].owner@ == n;
        }
        assert(owners(keys@) =~= session.names());
    }
    true
}

/// The position of `owner`'s key in `keys`.
pub fn find_owner(keys: &Vec<DkgKey>, owner: &Vec<u8>) -> (r: Option<usize>)
    ensures
        r matches Some(i) ==> i < keys@.len() && keys@[i as int].owner@ == owner@,
        r is None <==> !owners(keys@).contains(owner@),
{
    let mut i: usize = 0;
    while i < keys.len()
        invariant
            i <= keys@.len(),
            forall|j: int| 0 <= j < i ==> #[trigger] keys@[j].owner@ != owner@,
        decreases keys@.len() - i,
    {
        if keys[i].owner == *owner {
            assert(keys@[i as int].owner@ =~= owner@);
            return Some(i);
        }
        i += 1;
    }
    None
}

impl DkgKey {
    /// A copy.
    pub fn duplicate(&self) -> (r: DkgKey)
        ensures
            r.owner@ == self.owner@,
            r.key@ == self.key@,
            r.sig@ == self.sig@,
    {
        DkgKey { owner: copy_bytes(&self.owner), key: copy_bytes(&self.key), sig: copy_bytes(&self.sig) }
    }
}

/// The two key lists hold the same owners, keys and signatures, in order.
pub open spec fn same_keys(a: Seq<DkgKey>, b: Seq<DkgKey>) -> bool {
    &&& a.len() == b.len()
    &&& forall|i: int|
        0 <= i < a.len() ==> (#[trigger] a[i]).owner@ == b[i].owner@ && a[i].key@ == b[i].key@ && a[i].sig@
            == b[i].sig@
}

/// A copy of a key list.
pub fn copy_keys(v: &Vec<DkgKey>) -> (r: Vec<DkgKey>)
    ensures
        same_keys(r@, v@),
{
    let mut r: Vec<DkgKey> = Vec::new();
    let mut i: usize = 0;
    while i < v.len()
        invariant
            i <= v@.len(),
            r@.len() == i,
            forall|j: int|
                0 <= j < i ==> (#[trigger] r@[j]).owner@ == v@[j].owner@ && r@[j].key@ == v@[j].key@ && r@[j].sig@
                    == v@[j].sig@,
        decreases v@.len() - i,
    {
        r.push(v[i].duplicate());
        i += 1;
    }
    r
}

/// Whether two key lists are the same.
fn keys_equal(a: &Vec<DkgKey>, b: &Vec<DkgKey>) -> (r: bool)
    ensures
        r == same_keys(a@, b@),
{
    if a.len() != b.len() {
        return false;
    }
    let mut i: usize = 0;
    while i < a.len()
        invariant
            i <= a@.len(),
            a@.len() == b@.len(),
            forall|j: int|
                0 <= j < i ==> (#[trigger] a@[j]).owner@ == b@[j].owner@ && a@[j].key@ == b@[j].key@ && a@[j].sig@
                    == b@[j].sig@,
        decreases a@.len() - i,
    {
        if !(a[i].owner == b[i].owner && a[i].key == b[i].key && a[i].sig == b[i].sig) {
            proof {
                if a@[i as int].owner@ == b@[i as int].owner@ && a@[i as int].key@ == b@[i as int].key@ && a@[i as int].sig@ == b@[i as int].sig@ {
                    assert(a@[i as int].owner@ =~= b@[i as int].owner@);
                    assert(a@[i as int].key@ =~= b@[i as int].key@);
                    assert(a@[i as int].sig@ =~= b@[i as int].sig@);
                }
            }
            return false;
        }
        assert(a@[i as int].owner@ =~= b@[i as int].owner@);
        assert(a@[i as int].key@ =~= b@[i as int].key@);
        assert(a@[i as int].sig@ =~= b@[i as int].sig@);
        i += 1;
    }
    true
}

/// `s` holds `key` and `sig` for `owner`.
pub open spec fn stores(s: Seq<DkgKey>, owner: Seq<u8>, key: Seq<u8>, sig: Seq<u8>) -> bool {
    exists|j: int| 0 <= j < s.len() && #[trigger] s[j].owner@ == owner && s[j].key@ == key && s[j].sig@ == sig
}

/// Records `owner`'s key at `found`, its position if any, else at the end.
/// Returns whether the owner is new.
fn record_key(keys: &mut Vec<DkgKey>, found: Option<usize>, owner: &Vec<u8>, key: &Vec<u8>, sig: &Vec<u8>) -> (fresh: bool)
    requires
        unique_owners(old(keys)@),
        found matches Some(j) ==> j < old(keys)@.len() && old(keys)@[j as int].owner@ == owner@,
        found is None ==> !owners(old(keys)@).contains(owner@),
    ensures
        unique_owners(final(keys)@),
        owners(final(keys)@) == owners(old(keys)@).insert(owner@),
        fresh == found is None,
        stores(final(keys)@, owner@, key@, sig@),
{
    let ghost old_keys = keys@;
    let entry = DkgKey { owner: copy_bytes(owner), key: copy_bytes(key), sig: copy_bytes(sig) };
    match found {
        Some(j) => {
            keys.set(j, entry);
            proof {
                let nk = keys@;
                assert(nk[j as int].owner@ == owner@ && nk[j as int].key@ == key@ && nk[j as int].sig@ == sig@);
                assert forall|a: int, b: int| 0 <= a < nk.len() && 0 <= b < nk.len() && a != b implies (#[trigger] nk[a]).owner@ != (#[trigger] nk[b]).owner@ by {
                    assert(old_keys[a].owner@ != old_keys[b].owner@);
                    if a == j {
                        assert(nk[a].owner@ == old_keys[a].owner@);
                    }
                    if b == j {
                        assert(nk[b].owner@ == old_keys[b].owner@);
                    }
                }
                assert forall|n: Seq<u8>| owners(nk).contains(n) <==> owners(old_keys).insert(owner@).contains(n) by {
                    if owners(nk).contains(n) {
                        let a = choose|a: int| 0 <= a < nk.len() && #[trigger] nk[a].owner@ == n;
                        if a != j {
                            assert(old_keys[a].owner@ == n);
                        }
                    }
                    if owners(old_keys).contains(n) {
                        let a = choose|a: int| 0 <= a < old_keys.len() && #[trigger] old_keys[a].owner@ == n;
                        if a != j {
                            assert(nk[a].owner@ == n);
                        } else {
                            assert(nk[a].owner@ == owner@);
                        }
                    }
                    if n == owner@ {
                        assert(nk[j as int].owner@ == n);
                    }
                }
                assert(owners(nk) =~= owners(old_keys).insert(owner@));
            }
            false
        },
        None => {
            keys.push(entry);
            proof {
                let nk = keys@;
                let n0 = old_keys.len() as int;
                assert(nk[n0].owner@ == owner@ && nk[n0].key@ == key@ && nk[n0].sig@ == sig@);
                assert forall|a: int, b: int| 0 <= a < nk.len() && 0 <= b < nk.len() && a != b implies (#[trigger] nk[a]).owner@ != (#[trigger] nk[b]).owner@ by {
                    if a < n0 && b < n0 {
                        assert(old_keys[a].owner@ != old_keys[b].owner@);
                    } else if a == n0 {
                        assert(nk[b] == old_keys[b]);
                        assert(!owners(old_keys).contains(owner@));
                    } else {
                        assert(nk[a] == old_keys[a]);
                        assert(!owners(old_keys).contains(owner@));
                    }
                }
                assert forall|n: Seq<u8>| owners(nk).contains(n) <==> owners(old_keys).insert(owner@).contains(n) by {
                    if owners(nk).contains(n) {
                        let a = choose|a: int| 0 <= a < nk.len() && #[trigger] nk[a].owner@ == n;
                        if a < n0 {
                            assert(old_keys[a].owner@ == n);
                        }
                    }
                    if owners(old_keys).contains(n) {
                        let a = choose|a: int| 0 <= a < old_keys.len() && #[trigger] old_keys[a].owner@ == n;
                        assert(nk[a].owner@ == n);
                    }
                    if n == owner@ {
                        assert(nk[n0].owner@ == n);
                    }
                }
                assert(owners(nk) =~= owners(old_keys).insert(owner@));
            }
            true
        },
    }
}

proof fn lemma_held_key(s: Seq<DkgKey>, j: int, owner: Seq<u8>)
    requires
        unique_owners(s),
        0 <= j < s.len(),
        s[j].owner@ == owner,
    ensures
        held_key(s, owner) == s[j],
{
    reveal(held_key);
    let cj = choose|q: int| 0 <= q < s.len() && #[trigger] s[q].owner@ == owner;
    if cj != j {
        assert(s[cj].owner@ != s[j].owner@);
    }
}

/// In a well-formed voter, the keys for `h` are those of the entry with hash `h`.
proof fn lemma_keys_at(v: DkgVoter, i: int, h: Seq<u8>)
    requires
        v.wf(),
        0 <= i < v.ephemeral@.len(),
        v.ephemeral@[i].session_hash@ == h,
    ensures
        v.has_keys(h),
        v.keys_at(h) == v.ephemeral@[i].pub_keys@,
{
    reveal(DkgVoter::keys_at);
    let c = choose|q: int| 0 <= q < v.ephemeral@.len() && #[trigger] v.ephemeral@[q].session_hash@ == h;
    if c != i {
        assert(v.ephemeral@[c].session_hash@ != v.ephemeral@[i].session_hash@);
    }
}

impl DkgVoter {
    pub open spec fn wf(&self) -> bool {
        &&& forall|i: int| 0 <= i < self.ephemeral@.len() ==> unique_owners(#[trigger] self.ephemeral@[i].pub_keys@)
        &&& forall|i: int, j: int|
            0 <= i < self.ephemeral@.len() && 0 <= j < self.ephemeral@.len() && i != j ==> (
            #[trigger] self.ephemeral@[i]).session_hash@ != (#[trigger] self.ephemeral@[j]).session_hash@
    }

    /// The keys held for the session with hash `h` (meaningful when `has_keys(h)`).
    #[verifier::opaque]
    pub open spec fn keys_at(&self, h: Seq<u8>) -> Seq<DkgKey> {
        self.ephemeral@[choose|i: int| 0 <= i < self.ephemeral@.len() && #[trigger] self.ephemeral@[i].session_hash@ == h].pub_keys@
    }

    /// Ephemeral keys are held for the session with hash `h`.
    pub open spec fn has_keys(&self, h: Seq<u8>) -> bool {
        exists|i: int| 0 <= i < self.ephemeral@.len() && #[trigger] self.ephemeral@[i].session_hash@ == h
    }

    /// A voter with no session.
    pub fn new() -> (r: DkgVoter)
        ensures
            r.wf(),
            r.ephemeral@.len() == 0,
            r.states@.len() == 0,
    {
        DkgVoter { ephemeral: Vec::new(), states: Vec::new(), last_received_dkg_msg_time: None }
    }

    fn find_keys(&self, h: &Vec<u8>) -> (r: Option<usize>)
        ensures
            r matches Some(i) ==> i < self.ephemeral@.len() && self.ephemeral@[i as int].session_hash@ == h@,
            r is None <==> !self.has_keys(h@),
    {
        let mut i: usize = 0;
        while i < self.ephemeral.len()
            invariant
                i <= self.ephemeral@.len(),
                forall|j: int| 0 <= j < i ==> #[trigger] self.ephemeral@[j].session_hash@ != h@,
            decreases self.ephemeral@.len() - i,
        {
            if self.ephemeral[i].session_hash == *h {
                assert(self.ephemeral@[i as int].session_hash@ =~= h@);
                return Some(i);
            }
            i += 1;
        }
        None
    }

    fn find_state(&self, h: &Vec<u8>) -> (r: Option<usize>)
        ensures
            r matches Some(i) ==> i < self.states@.len() && self.states@[i as int].session_hash@ == h@,
            r is None ==> forall|j: int| 0 <= j < self.states@.len() ==> #[trigger] self.states@[j].session_hash@ != h@,
    {
        let mut i: usize = 0;
        while i < self.states.len()
            invariant
                i <= self.states@.len(),
                forall|j: int| 0 <= j < i ==> #[trigger] self.states@[j].session_hash@ != h@,
            decreases self.states@.len() - i,
        {
            if self.states[i].session_hash == *h {
                assert(self.states@[i as int].session_hash@ =~= h@);
                return Some(i);
            }
            i += 1;
        }
        None
    }

    /// When a DKG message last taught us something.
    pub fn last_received_dkg_message(&self) -> (r: Option<u64>)
        ensures
            r == self.last_received_dkg_msg_time,
    {
        self.last_received_dkg_msg_time
    }

    /// Records that a DKG message taught us something at time `now`.
    pub fn learned_something_from_message(&mut self, now: u64)
        ensures
            final(self).last_received_dkg_msg_time == Some(now),
            final(self).ephemeral == old(self).ephemeral,
            final(self).states == old(self).states,
    {
        self.last_received_dkg_msg_time = Some(now);
    }

    /// Our ephemeral key for the session and our signature of it. A session
    /// seen before keeps its key (and nothing changes); for a new one the key
    /// is the public key of `new_secret`, signed with `keypair`.
    pub fn gen_ephemeral_key(&mut self, session_hash: &Vec<u8>, our_name: &Vec<u8>, keypair: &Vec<u8>, new_secret: Vec<u8>) -> (r: Result<(Vec<u8>, Vec<u8>), Error>)
        requires
            old(self).wf(),
        ensures
            final(self).wf(),
            old(self).has_keys(session_hash@) ==> *final(self) == *old(self),
            old(self).has_keys(session_hash@) ==> forall|i: int|
                0 <= i < old(self).ephemeral@.len() && #[trigger] old(self).ephemeral@[i].session_hash@ == session_hash@
                    ==> (r is Ok <==> owners(old(self).ephemeral@[i].pub_keys@).contains(our_name@)),
            r matches Ok((k, s)) ==> exists|i: int, j: int|
                0 <= i < final(self).ephemeral@.len() && #[trigger] final(self).ephemeral@[i].session_hash@ == session_hash@
                    && 0 <= j < final(self).ephemeral@[i].pub_keys@.len() && #[trigger] final(self).ephemeral@[i].pub_keys@[j].owner@
                    == our_name@ && final(self).ephemeral@[i].pub_keys@[j].key@ == k@
                    && final(self).ephemeral@[i].pub_keys@[j].sig@ == s@,
            !old(self).has_keys(session_hash@) ==> (r is Ok <==> bls_secret_decodes(new_secret@) && ed25519_keypair_decodes(keypair@)),
            !old(self).has_keys(session_hash@) ==> (r matches Ok((k, s)) ==> k@ == bls_public_of(new_secret@) && s@
                == ed25519_signature_of(keypair@, k@)),
            !old(self).has_keys(session_hash@) ==> (r matches Ok((k, s)) ==> final(self).has_keys(session_hash@)
                && final(self).keys_at(session_hash@).len() == 1 && final(self).keys_at(session_hash@)[0].owner@ == our_name@
                && final(self).keys_at(session_hash@)[0].key@ == k@ && final(self).keys_at(session_hash@)[0].sig@ == s@),
            r is Err ==> *final(self) == *old(self),
    {
        match self.find_keys(session_hash) {
            Some(i) => {
                let keys = &self.ephemeral[i].pub_keys;
                proof {
                    assert forall|q: int| 0 <= q < self.ephemeral@.len() && #[trigger] self.ephemeral@[q].session_hash@ == session_hash@ implies q == i by {
                        if q != i {
                            assert(self.ephemeral@[q].session_hash@ != self.ephemeral@[i as int].session_hash@);
                        }
                    }
                }
                match find_owner(keys, our_name) {
                    Some(j) => {
                        let r = (copy_bytes(&keys[j].key), copy_bytes(&keys[j].sig));
                        assert(self.ephemeral@[i as int].pub_keys@[j as int].owner@ == our_name@);
                        Ok(r)
                    },
                    None => Err(Error::InvalidState),
                }
            },
            None => {
                let key = match bls_public_key(&new_secret) {
                    Some(k) => k,
                    None => return Err(Error::InvalidPayload),
                };
                let sig = match ed25519_sign(keypair, &key) {
                    Some(s) => s,
                    None => return Err(Error::InvalidPayload),
                };
                let entry = DkgKey { owner: copy_bytes(our_name), key: copy_bytes(&key), sig: copy_bytes(&sig) };
                let ghost prev = self.ephemeral@;
                self.ephemeral.push(DkgEphemeralKeys {
                    session_hash: copy_bytes(session_hash),
                    secret_key: new_secret,
                    pub_keys: vec![entry],
                });
                proof {
                    let n = prev.len() as int;
                    assert(self.ephemeral@[n].pub_keys@[0].owner@ == our_name@);
                    assert(self.ephemeral@[n].session_hash@ == session_hash@);
                    assert(self.ephemeral@[n].pub_keys@[0].key@ == key@);
                    assert(self.ephemeral@[n].pub_keys@[0].sig@ == sig@);

                    assert forall|a: int| 0 <= a < self.ephemeral@.len() implies unique_owners(#[trigger] self.ephemeral@[a].pub_keys@) by {
                        if a < n {
                            assert(self.ephemeral@[a] == prev[a]);
                        }
                    }
                    assert forall|a: int, b: int|
                        0 <= a < self.ephemeral@.len() && 0 <= b < self.ephemeral@.len() && a != b implies (
                        #[trigger] self.ephemeral@[a]).session_hash@ != (#[trigger] self.ephemeral@[b]).session_hash@ by {
                        if a < n && b < n {
                            assert(self.ephemeral@[a] == prev[a] && self.ephemeral@[b] == prev[b]);
                        } else if a == n {
                            assert(self.ephemeral@[b] == prev[b]);
                            if prev[b].session_hash@ == session_hash@ {
                                assert(old(self).ephemeral@[b].session_hash@ == session_hash@);
                                assert(old(self).has_keys(session_hash@));
                            }
                        } else {
                            assert(self.ephemeral@[a] == prev[a]);
                            if prev[a].session_hash@ == session_hash@ {
                                assert(old(self).ephemeral@[a].session_hash@ == session_hash@);
                                assert(old(self).has_keys(session_hash@));
                            }
                        }
                    }
                }
                proof {
                    lemma_keys_at(*self, prev.len() as int, session_hash@);
                }
                Ok((key, sig))
            },
        }
    }

    /// Records `owner`'s key in entry `i`.
    fn update_entry(&mut self, i: usize, found: Option<usize>, owner: &Vec<u8>, key: &Vec<u8>, sig: &Vec<u8>) -> (fresh: bool)
        requires
            old(self).wf(),
            i < old(self).ephemeral@.len(),
            found matches Some(j) ==> j < old(self).ephemeral@[i as int].pub_keys@.len()
                && old(self).ephemeral@[i as int].pub_keys@[j as int].owner@ == owner@,
            found is None ==> !owners(old(self).ephemeral@[i as int].pub_keys@).contains(owner@),
        ensures
            final(self).wf(),
            final(self).ephemeral@.len() == old(self).ephemeral@.len(),
            forall|q: int| 0 <= q < old(self).ephemeral@.len() && q != i ==> #[trigger] final(self).ephemeral@[q] == old(self).ephemeral@[q],
            final(self).ephemeral@[i as int].session_hash@ == old(self).ephemeral@[i as int].session_hash@,
            owners(final(self).ephemeral@[i as int].pub_keys@) == owners(old(self).ephemeral@[i as int].pub_keys@).insert(owner@),
            fresh == found is None,
            final(self).last_received_dkg_msg_time == old(self).last_received_dkg_msg_time,
            stores(final(self).ephemeral@[i as int].pub_keys@, owner@, key@, sig@),
    {
        let ghost prev = self.ephemeral@;
        let mut entry = self.ephemeral.remove(i);
        let fresh = record_key(&mut entry.pub_keys, found, owner, key, sig);
        self.ephemeral.insert(i, entry);
        proof {
            assert forall|q: int| 0 <= q < prev.len() && q != i implies #[trigger] self.ephemeral@[q] == prev[q] by {}
            assert forall|a: int| 0 <= a < self.ephemeral@.len() implies unique_owners(#[trigger] self.ephemeral@[a].pub_keys@) by {
                if a != i {
                    assert(self.ephemeral@[a] == prev[a]);
                }
            }
            assert forall|a: int, b: int|
                0 <= a < self.ephemeral@.len() && 0 <= b < self.ephemeral@.len() && a != b implies (
                #[trigger] self.ephemeral@[a]).session_hash@ != (#[trigger] self.ephemeral@[b]).session_hash@ by {
                assert(self.ephemeral@[a].session_hash@ == prev[a].session_hash@);
                assert(self.ephemeral@[b].session_hash@ == prev[b].session_hash@);
            }
        }
        fresh
    }

    /// Records `owner`'s key in entry `i` and tells whether the keys now come
    /// from exactly the participants.
    fn record_and_check(&mut self, i: usize, found: Option<usize>, session: &DkgSessionId, owner: &Vec<u8>, key: &Vec<u8>, sig: &Vec<u8>, now: u64) -> (done: bool)
        requires
            old(self).wf(),
            i < old(self).ephemeral@.len(),
            found matches Some(j) ==> j < old(self).ephemeral@[i as int].pub_keys@.len()
                && old(self).ephemeral@[i as int].pub_keys@[j as int].owner@ == owner@,
            found is None ==> !owners(old(self).ephemeral@[i as int].pub_keys@).contains(owner@),
        ensures
            final(self).wf(),
            final(self).ephemeral@.len() == old(self).ephemeral@.len(),
            final(self).ephemeral@[i as int].session_hash@ == old(self).ephemeral@[i as int].session_hash@,
            key_recorded(old(self).ephemeral@[i as int].pub_keys@, final(self).ephemeral@[i as int].pub_keys@, owner@, session.names(), done),
            stores(final(self).ephemeral@[i as int].pub_keys@, owner@, key@, sig@),
    {
        let fresh = self.update_entry(i, found, owner, key, sig);
        if fresh {
            self.last_received_dkg_msg_time = Some(now);
        }
        let done = owners_complete(&self.ephemeral[i].pub_keys, session);
        proof {
            reveal(key_recorded);
        }
        done
    }

    /// Checks and records a participant's ephemeral key for the session.
    /// Fails as `check_key` does; with `NoDkgKeysForSession` when we hold no
    /// keys for the session; with `DoubleKeyAttackDetected`, carrying both
    /// keys and both signatures, when the owner already gave another key.
    /// Returns whether the keys now come from exactly the participants.
    pub fn save_key(&mut self, session: &DkgSessionId, owner: &Vec<u8>, key: &Vec<u8>, sig: &Vec<u8>, now: u64) -> (r: Result<bool, Error>)
        requires
            old(self).wf(),
        ensures
            final(self).wf(),
            r is Err ==> *final(self) == *old(self),
            !session.names().contains(owner@) ==> (r matches Err(Error::NodeNotInDkgSession(n)) && n@ == owner@),
            session.names().contains(owner@) && !ed25519_sig_valid(owner@, key@, sig@) ==> r matches Err(Error::InvalidSignature),
            session.names().contains(owner@) && ed25519_sig_valid(owner@, key@, sig@) && !old(self).has_keys(session.hash_spec())
                ==> r matches Err(Error::NoDkgKeysForSession),
            session.names().contains(owner@) && ed25519_sig_valid(owner@, key@, sig@) && old(self).has_keys(session.hash_spec())
                && owners(old(self).keys_at(session.hash_spec())).contains(owner@) && held_key(
                old(self).keys_at(session.hash_spec()),
                owner@,
            ).key@ != key@ ==> (r matches Err(e) && is_double_key(
                e,
                owner@,
                key@,
                sig@,
                held_key(old(self).keys_at(session.hash_spec()), owner@),
            )),
            session.names().contains(owner@) && ed25519_sig_valid(owner@, key@, sig@) && old(self).has_keys(session.hash_spec())
                && !(owners(old(self).keys_at(session.hash_spec())).contains(owner@) && held_key(
                old(self).keys_at(session.hash_spec()),
                owner@,
            ).key@ != key@) ==> r is Ok,
            r is Ok ==> held_key(final(self).keys_at(session.hash_spec()), owner@).key@ == key@ && held_key(
                final(self).keys_at(session.hash_spec()),
                owner@,
            ).sig@ == sig@,
            r matches Ok(done) ==> final(self).has_keys(session.hash_spec()) && key_recorded(
                old(self).keys_at(session.hash_spec()),
                final(self).keys_at(session.hash_spec()),
                owner@,
                session.names(),
                done,
            ),
            r matches Err(e) ==> (e is NodeNotInDkgSession || e is InvalidSignature || e is NoDkgKeysForSession
                || e is DoubleKeyAttackDetected),
    {
        match check_key(session, owner, key, sig) {
            Ok(()) => {},
            Err(e) => return Err(e),
        }
        let h = session.hash();
        let i = match self.find_keys(&h) {
            Some(i) => i,
            None => return Err(Error::NoDkgKeysForSession),
        };
        let found = find_owner(&self.ephemeral[i].pub_keys, owner);
        let ghost old_keys = self.ephemeral@[i as int].pub_keys@;
        proof {
            lemma_keys_at(*self, i as int, h@);
        }
        if let Some(j) = found {
            proof {
                lemma_held_key(old_keys, j as int, owner@);
            }
            let held = &self.ephemeral[i].pub_keys[j];
            if !(held.key == *key) {
                proof {
                    if old_keys[j as int].key@ == key@ {
                        assert(old_keys[j as int].key@ =~= key@);
                    }
                }
                let e = Error::DoubleKeyAttackDetected {
                    owner: copy_bytes(owner),
                    new_key: copy_bytes(key),
                    new_sig: copy_bytes(sig),
                    old_key: copy_bytes(&held.key),
                    old_sig: copy_bytes(&held.sig),
                };
                assert(is_double_key(e, owner@, key@, sig@, held_key(old_keys, owner@)));
                return Err(e);
            }
            assert(held_key(old_keys, owner@).key@ == key@) by {
                assert(old_keys[j as int].key@ =~= key@);
            }
        }
        assert(!(owners(old_keys).contains(owner@) && held_key(old_keys, owner@).key@ != key@));
        let done = self.record_and_check(i, found, session, owner, key, sig, now);
        proof {
            lemma_keys_at(*self, i as int, h@);
            let ks = self.ephemeral@[i as int].pub_keys@;
            let j = choose|j: int| 0 <= j < ks.len() && #[trigger] ks[j].owner@ == owner@ && ks[j].key@ == key@ && ks[j].sig@ == sig@;
            assert(unique_owners(ks));
            lemma_held_key(ks, j, owner@);
        }
        Ok(done)
    }

    /// `save_key` for one key of a list.
    fn save_key_step(&mut self, session: &DkgSessionId, k: &DkgKey, now: u64) -> (r: Result<bool, Error>)
        requires
            old(self).wf(),
        ensures
            final(self).wf(),
    {
        self.save_key(session, &k.owner, &k.key, &k.sig, now)
    }

    /// The keys collected for the session.
    pub fn get_dkg_keys(&self, session: &DkgSessionId) -> (r: Result<Vec<DkgKey>, Error>)
        requires
            self.wf(),
        ensures
            r is Err <==> !self.has_keys(session.hash_spec()),
            r matches Err(e) ==> e is NoDkgKeysForSession,
            r matches Ok(k) ==> forall|i: int|
                0 <= i < self.ephemeral@.len() && #[trigger] self.ephemeral@[i].session_hash@ == session.hash_spec()
                    ==> same_keys(k@, self.ephemeral@[i].pub_keys@),
    {
        let h = session.hash();
        match self.find_keys(&h) {
            Some(i) => {
                proof {
                    assert forall|q: int| 0 <= q < self.ephemeral@.len() && #[trigger] self.ephemeral@[q].session_hash@ == h@ implies q == i by {
                        if q != i {
                            assert(self.ephemeral@[q].session_hash@ != self.ephemeral@[i as int].session_hash@);
                        }
                    }
                }
                Ok(copy_keys(&self.ephemeral[i].pub_keys))
            },
            None => Err(Error::NoDkgKeysForSession),
        }
    }

    /// Checks keys that a peer holds for the session against ours, recording
    /// each of theirs when they differ. Returns the keys and whether they
    /// completed our set.
    pub fn check_keys(&mut self, session: &DkgSessionId, keys: Vec<DkgKey>, now: u64) -> (r: Result<(Vec<DkgKey>, bool), Error>)
        requires
            old(self).wf(),
        ensures
            final(self).wf(),
            !old(self).has_keys(session.hash_spec()) ==> (r matches Err(Error::NoDkgKeysForSession)) && *final(self) == *old(self),
            r matches Ok((k, _)) ==> k@ == keys@,
    {
        let h = session.hash();
        let i = match self.find_keys(&h) {
            Some(i) => i,
            None => return Err(Error::NoDkgKeysForSession),
        };
        if keys_equal(&keys, &self.ephemeral[i].pub_keys) {
            return Ok((keys, false));
        }
        let mut completed = false;
        let mut k: usize = 0;
        while k < keys.len()
            invariant
                self.wf(),
                k <= keys@.len(),
                old(self).has_keys(session.hash_spec()),
            decreases keys@.len() - k,
        {
            match self.save_key_step(session, &keys[k], now) {
                Ok(done) => {
                    completed = completed || done;
                },
                Err(e) => return Err(e),
            }
            k += 1;
        }
        Ok((keys, completed))
    }

    /// Forgets the session with hash `h`.
    pub fn remove(&mut self, h: &Vec<u8>)
        requires
            old(self).wf(),
        ensures
            final(self).wf(),
            !final(self).has_keys(h@),
            forall|k: Seq<u8>| k != h@ ==> (#[trigger] final(self).has_keys(k) == old(self).has_keys(k)),
            forall|j: int| 0 <= j < final(self).states@.len() ==> #[trigger] final(self).states@[j].session_hash@ != h@,
    {
        let ghost old_self = *self;
        if let Some(i) = self.find_keys(h) {
            self.ephemeral.remove(i);
            proof {
                assert forall|a: int| 0 <= a < self.ephemeral@.len() implies unique_owners(#[trigger] self.ephemeral@[a].pub_keys@) by {
                    if a < i {
                        assert(self.ephemeral@[a] == old_self.ephemeral@[a]);
                    } else {
                        assert(self.ephemeral@[a] == old_self.ephemeral@[a + 1]);
                    }
                }
                assert forall|a: int, b: int|
                    0 <= a < self.ephemeral@.len() && 0 <= b < self.ephemeral@.len() && a != b implies (
                    #[trigger] self.ephemeral@[a]).session_hash@ != (#[trigger] self.ephemeral@[b]).session_hash@ by {
                    let a0 = if a < i { a } else { a + 1 };
                    let b0 = if b < i { b } else { b + 1 };
                    assert(self.ephemeral@[a] == old_self.ephemeral@[a0] && self.ephemeral@[b] == old_self.ephemeral@[b0]);
                }
                assert forall|k: Seq<u8>| k != h@ implies (#[trigger] self.has_keys(k) == old_self.has_keys(k)) by {
                    if old_self.has_keys(k) {
                        let a = choose|a: int| 0 <= a < old_self.ephemeral@.len() && #[trigger] old_self.ephemeral@[a].session_hash@ == k;
                        assert(a != i);
                        if a < i {
                            assert(self.ephemeral@[a] == old_self.ephemeral@[a]);
                        } else {
                            assert(self.ephemeral@[a - 1] == old_self.ephemeral@[a]);
                        }
                    }
                    if self.has_keys(k) {
                        let a = choose|a: int| 0 <= a < self.ephemeral@.len() && #[trigger] self.ephemeral@[a].session_hash@ == k;
                        if a < i {
                            assert(self.ephemeral@[a] == old_self.ephemeral@[a]);
                        } else {
                            assert(self.ephemeral@[a] == old_self.ephemeral@[a + 1]);
                        }
                    }
                }
                if self.has_keys(h@) {
                    let a = choose|a: int| 0 <= a < self.ephemeral@.len() && #[trigger] self.ephemeral@[a].session_hash@ == h@;
                    let a0 = if a < i { a } else { a + 1 };
                    assert(self.ephemeral@[a] == old_self.ephemeral@[a0]);
                    assert(old_self.ephemeral@[a0].session_hash@ != old_self.ephemeral@[i as int].session_hash@);
                }
            }
        }
        proof {
            if !old_self.has_keys(h@) {
                assert(self.ephemeral@ == old_self.ephemeral@);
            }
        }
        let ghost mid = *self;
        let ghost eph = self.ephemeral@;
        let mut kept: Vec<DkgStateEntry> = Vec::new();
        while self.states.len() > 0
            invariant
                self.ephemeral@ == eph,
                forall|j: int| 0 <= j < kept@.len() ==> #[trigger] kept@[j].session_hash@ != h@,
            decreases self.states@.len(),
        {
            let e = self.states.pop().unwrap();
            if !(e.session_hash == *h) {
                proof {
                    if e.session_hash@ == h@ {
                        assert(e.session_hash@ =~= h@);
                    }
                }
                kept.push(e);
            }
        }
        self.states = kept;
        assert(self.ephemeral@ == eph);
        assert forall|k: Seq<u8>| k != h@ implies (#[trigger] self.has_keys(k) == old_self.has_keys(k)) by {
            assert(mid.has_keys(k) == old_self.has_keys(k));
            assert(self.has_keys(k) == mid.has_keys(k));
        }
    }

    /// Holds a vote-phase state for the session with hash `h`.
    pub open spec fn has_state(&self, h: Seq<u8>) -> bool {
        exists|i: int| 0 <= i < self.states@.len() && #[trigger] self.states@[i].session_hash@ == h
    }

    /// Starts the vote phase of the session, unless it has started, and
    /// returns our first vote with the keys collected.
    pub fn initialize_dkg_state(&mut self, session: &DkgSessionId, participant_index: usize) -> (r: Result<(sn_sdkg::DkgSignedVote, Vec<DkgKey>), Error>)
        requires
            old(self).wf(),
        ensures
            final(self).wf(),
            final(self).ephemeral == old(self).ephemeral,
            !old(self).has_keys(session.hash_spec()) ==> (r matches Err(Error::NoDkgKeysForSession)) && *final(self) == *old(self),
            r matches Ok((_, keys)) ==> old(self).has_keys(session.hash_spec()) && final(self).has_state(session.hash_spec())
                && same_keys(keys@, old(self).keys_at(session.hash_spec())),
            old(self).has_keys(session.hash_spec()) && (forall|i: int|
                0 <= i < old(self).keys_at(session.hash_spec()).len() ==> session.names().contains(
                    #[trigger] old(self).keys_at(session.hash_spec())[i].owner@,
                )) ==> (r is Ok || r matches Err(Error::InvalidState)),
            old(self).has_state(session.hash_spec()) ==> final(self).states@.len() == old(self).states@.len(),
    {
        let h = session.hash();
        let i = match self.find_keys(&h) {
            Some(i) => i,
            None => return Err(Error::NoDkgKeysForSession),
        };
        proof {
            lemma_keys_at(*self, i as int, h@);
        }
        let keys = copy_keys(&self.ephemeral[i].pub_keys);
        let mut entry = match self.find_state(&h) {
            Some(k) => self.states.remove(k),
            None => {
                let state = match create_dkg_state(session, participant_index, &self.ephemeral[i].secret_key, &keys) {
                    Ok(st) => st,
                    Err(e) => return Err(e),
                };
                DkgStateEntry { session_hash: copy_bytes(&h), state }
            },
        };
        let vote = dkg_first_vote(&mut entry.state);
        let ghost n = self.states@.len();
        self.states.push(entry);
        assert(self.states@[n as int].session_hash@ == h@);
        match vote {
            Some(v) => Ok((v, keys)),
            None => Err(Error::InvalidState),
        }
    }

    /// Records a participant's ephemeral key; once the keys are complete,
    /// starts the vote phase and returns our first vote with the keys.
    pub fn try_init_dkg(
        &mut self,
        session: &DkgSessionId,
        participant_index: usize,
        ephemeral_pub_key: &Vec<u8>,
        sig: &Vec<u8>,
        sender: &Vec<u8>,
        now: u64,
    ) -> (r: Result<Option<(sn_sdkg::DkgSignedVote, Vec<DkgKey>)>, Error>)
        requires
            old(self).wf(),
        ensures
            final(self).wf(),
            !session.names().contains(sender@) ==> r matches Err(Error::NodeNotInDkgSession(_)),
            session.names().contains(sender@) && !ed25519_sig_valid(sender@, ephemeral_pub_key@, sig@) ==> r matches Err(
                Error::InvalidSignature,
            ),
            r matches Ok(Some(_)) ==> final(self).has_state(session.hash_spec()),
            session.names().contains(sender@) && ed25519_sig_valid(sender@, ephemeral_pub_key@, sig@) && old(self).has_keys(
                session.hash_spec(),
            ) && owners(old(self).keys_at(session.hash_spec())).contains(sender@) && held_key(
                old(self).keys_at(session.hash_spec()),
                sender@,
            ).key@ != ephemeral_pub_key@ ==> (r matches Err(e) && is_double_key(
                e,
                sender@,
                ephemeral_pub_key@,
                sig@,
                held_key(old(self).keys_at(session.hash_spec()), sender@),
            )) && *final(self) == *old(self),
            session.names().contains(sender@) && ed25519_sig_valid(sender@, ephemeral_pub_key@, sig@) && !old(self).has_keys(
                session.hash_spec(),
            ) ==> r matches Err(Error::NoDkgKeysForSession),
            ({
                let h = session.hash_spec();
                let fresh = session.names().contains(sender@) && ed25519_sig_valid(sender@, ephemeral_pub_key@, sig@)
                    && old(self).has_keys(h) && !(owners(old(self).keys_at(h)).contains(sender@) && held_key(
                    old(self).keys_at(h),
                    sender@,
                ).key@ != ephemeral_pub_key@);
                &&& (fresh && owners(old(self).keys_at(h)).insert(sender@) != session.names() ==> r matches Ok(None))
                &&& (fresh && owners(old(self).keys_at(h)).insert(sender@) == session.names() ==> (r matches Ok(Some(_))
                    || r matches Err(Error::InvalidState)))
            }),
    {
        let done = match self.save_key(session, sender, ephemeral_pub_key, sig, now) {
            Ok(d) => d,
            Err(e) => return Err(e),
        };
        proof {
            reveal(key_recorded);
        }
        if !done {
            return Ok(None);
        }
        proof {
            let h = session.hash_spec();
            assert forall|i: int| 0 <= i < self.keys_at(h).len() implies session.names().contains(
                #[trigger] self.keys_at(h)[i].owner@,
            ) by {
                assert(owners(self.keys_at(h)).contains(self.keys_at(h)[i].owner@));
            }
        }
        match self.initialize_dkg_state(session, participant_index) {
            Ok(v) => Ok(Some(v)),
            Err(e) => Err(e),
        }
    }

    /// All the votes the session's state holds.
    pub fn get_all_votes(&self, session: &DkgSessionId) -> (r: Result<Vec<sn_sdkg::DkgSignedVote>, Error>)
        ensures
            r is Err <==> !self.has_state(session.hash_spec()),
            r matches Err(e) ==> e is NoDkgStateForSession,
    {
        let h = session.hash();
        match self.find_state(&h) {
            Some(k) => Ok(dkg_all_votes(&self.states[k].state)),
            None => Err(Error::NoDkgStateForSession),
        }
    }

    /// Hands a vote to the session's state; returns its reactions.
    pub fn handle_dkg_vote(&mut self, session: &DkgSessionId, vote: sn_sdkg::DkgSignedVote) -> (r: Result<Vec<sn_sdkg::VoteResponse>, Error>)
        ensures
            !old(self).has_state(session.hash_spec()) ==> r matches Err(Error::NoDkgStateForSession),
            final(self).ephemeral == old(self).ephemeral,
            final(self).states@.len() == old(self).states@.len(),
    {
        let h = session.hash();
        match self.find_state(&h) {
            Some(k) => {
                let ghost prev = self.states@;
                let mut entry = self.states.remove(k);
                let res = dkg_handle_vote(&mut entry.state, vote);
                self.states.insert(k, entry);
                match res {
                    Some(v) => Ok(v),
                    None => Err(Error::InvalidState),
                }
            },
            None => Err(Error::NoDkgStateForSession),
        }
    }
}

/// The keys handed to the vote phase: each key under its owner's position
/// among the participants. Positions past 255 cannot be named and fail.
pub fn dkg_key_map(session: &DkgSessionId, keys: &Vec<DkgKey>) -> (r: Result<Vec<(u8, Vec<u8>)>, Error>)
    requires
        forall|j: int| 0 <= j < keys@.len() ==> session.names().contains(#[trigger] keys@[j].owner@),
    ensures
        r matches Err(e) ==> e is InvalidState,
        session.elders@.len() <= 256 ==> r is Ok,
        r matches Ok(m) ==> m@.len() == keys@.len() && forall|j: int|
            0 <= j < keys@.len() ==> (#[trigger] m@[j]).0 < session.elders@.len() && session.elders@[m@[j].0 as int].name@
                == keys@[j].owner@ && m@[j].1@ == keys@[j].key@,
{
    let mut indexed: Vec<(u8, Vec<u8>)> = Vec::new();
    let mut k: usize = 0;
    while k < keys.len()
        invariant
            k <= keys@.len(),
            indexed@.len() == k,
            forall|j: int| 0 <= j < keys@.len() ==> session.names().contains(#[trigger] keys@[j].owner@),
            forall|j: int|
                0 <= j < k ==> (#[trigger] indexed@[j]).0 < session.elders@.len() && session.elders@[indexed@[j].0 as int].name@
                    == keys@[j].owner@ && indexed@[j].1@ == keys@[j].key@,
        decreases keys@.len() - k,
    {
        match session.elder_index(&keys[k].owner) {
            Some(idx) => {
                if idx > 255 {
                    return Err(Error::InvalidState);
                }
                indexed.push((idx as u8, copy_bytes(&keys[k].key)));
            },
            None => return Err(Error::InvalidState),
        }
        k += 1;
    }
    Ok(indexed)
}

/// Builds the vote-phase state of a session from the collected keys, each
/// keyed by its owner's position among the participants (`dkg_key_map`),
/// with threshold `threshold(n)` for `n` participants, one less than the
/// supermajority.
pub fn create_dkg_state(session: &DkgSessionId, participant_index: usize, secret: &Vec<u8>, keys: &Vec<DkgKey>) -> (r: Result<sn_sdkg::DkgState, Error>)
    ensures
        r is Ok ==> forall|i: int| 0 <= i < keys@.len() ==> session.names().contains(#[trigger] keys@[i].owner@),
        (exists|i: int| 0 <= i < keys@.len() && !session.names().contains(#[trigger] keys@[i].owner@)) ==> r matches Err(
            Error::NodeNotInDkgSession(_),
        ),
        r matches Err(Error::NodeNotInDkgSession(n)) ==> exists|i: int|
            0 <= i < keys@.len() && #[trigger] keys@[i].owner@ == n@ && !session.names().contains(n@) && forall|j: int|
                0 <= j < i ==> session.names().contains(#[trigger] keys@[j].owner@),
        (forall|i: int| 0 <= i < keys@.len() ==> session.names().contains(#[trigger] keys@[i].owner@)) ==> (r is Ok || r matches Err(
            Error::InvalidState,
        )),
{
    let mut i: usize = 0;
    while i < keys.len()
        invariant
            i <= keys@.len(),
            forall|j: int| 0 <= j < i ==> session.names().contains(#[trigger] keys@[j].owner@),
        decreases keys@.len() - i,
    {
        if session.elder_index(&keys[i].owner).is_none() {
            return Err(Error::NodeNotInDkgSession(copy_bytes(&keys[i].owner)));
        }
        i += 1;
    }
    let indexed = match dkg_key_map(session, keys) {
        Ok(m) => m,
        Err(e) => return Err(e),
    };
    let threshold = crate::threshold(session.elders.len());
    if participant_index > 255 {
        return Err(Error::InvalidState);
    }
    match dkg_state_new(participant_index as u8, secret, &indexed, threshold) {
        Some(st) => Ok(st),
        None => Err(Error::InvalidState),
    }
}

} // verus!
