//! The member roster: one section-signed state per member name, and the
//! deterministic choice of Elder candidates among its mature members.

use crate::name::{prefix_name, closer, cmp_distance, byte_at, prefix_matches, same_name, Prefix, NAME_LEN, lemma_closer_asymmetric, lemma_closer_transitive};
use crate::sap::{MembershipState, NodeState, Peer, PeerView, SectionAuthorityProvider, SignedNodeState};
use crate::MIN_ADULT_AGE;
use vstd::prelude::*;

verus! {

/// Whether a member state may replace the one held for the same name: a
/// joined member may age, leave or relocate; a relocating one may leave.
pub open spec fn may_replace(held: NodeState, new: NodeState) -> bool {
    match (held.state, new.state) {
        (MembershipState::Joined, MembershipState::Joined) => new.peer.age > held.peer.age,
        (MembershipState::Joined, MembershipState::Left) => true,
        (MembershipState::Joined, MembershipState::Relocated(_)) => true,
        (MembershipState::Relocated(_), MembershipState::Left) => true,
        _ => false,
    }
}

/// The members of a section.
#[derive(Clone, Debug)]
pub struct SectionPeers {
    pub members: Vec<SignedNodeState>,
}

/// The set of names in `v`.
pub open spec fn name_set(v: Seq<Vec<u8>>) -> Set<Seq<u8>> {
    Set::new(|n: Seq<u8>| exists|i: int| 0 <= i < v.len() && #[trigger] v[i]@ == n)
}

/// Whether `name` is in `v`.
pub fn contains_name(v: &Vec<Vec<u8>>, name: &Vec<u8>) -> (r: bool)
    ensures
        r == name_set(v@).contains(name@),
{
    let mut i: usize = 0;
    while i < v.len()
        invariant
            i <= v@.len(),
            forall|j: int| 0 <= j < i ==> #[trigger] v@[j]@ != name@,
        decreases v@.len() - i,
    {
        if v[i] == *name {
            assert(v@[i as int]@ =~= name@);
            return true;
        }
        i += 1;
    }
    false
}

/// `a` ranks before `b` as an Elder candidate: older first, then current
/// Elders, then closer in XOR distance to `t`.
pub open spec fn better(a: PeerView, b: PeerView, elders: Set<Seq<u8>>, t: Seq<u8>) -> bool {
    a.age > b.age || (a.age == b.age && ((elders.contains(a.name) && !elders.contains(b.name)) || (
    elders.contains(a.name) == elders.contains(b.name) && closer(a.name, b.name, t))))
}

/// No peer ranks before itself, and of two peers at most one ranks first.
pub proof fn lemma_better_asymmetric(a: PeerView, b: PeerView, elders: Set<Seq<u8>>, t: Seq<u8>)
    ensures
        !(better(a, b, elders, t) && better(b, a, elders, t)),
{
    lemma_closer_asymmetric(a.name, b.name, t);
}

/// The ranking is transitive.
pub proof fn lemma_better_transitive(a: PeerView, b: PeerView, c: PeerView, elders: Set<Seq<u8>>, t: Seq<u8>)
    requires
        better(a, b, elders, t),
        better(b, c, elders, t),
    ensures
        better(a, c, elders, t),
{
    if a.age == b.age && b.age == c.age && elders.contains(a.name) == elders.contains(b.name)
        && elders.contains(b.name) == elders.contains(c.name) {
        lemma_closer_transitive(a.name, b.name, c.name, t);
    }
}

proof fn lemma_same_name_equal(a: Seq<u8>, b: Seq<u8>)
    requires
        a.len() == NAME_LEN,
        b.len() == NAME_LEN,
        same_name(a, b),
    ensures
        a == b,
{
    assert forall|k: int| 0 <= k < a.len() implies a[k] == b[k] by {
        assert(byte_at(a, k) == byte_at(b, k));
    }
    assert(a =~= b);
}

/// Whether `a` ranks before `b`; when it does not and the names differ, `b`
/// ranks before `a`.
pub fn is_better(a: &Peer, b: &Peer, sap: &SectionAuthorityProvider, t: &Vec<u8>) -> (r: bool)
    requires
        a.name@.len() == NAME_LEN,
        b.name@.len() == NAME_LEN,
    ensures
        r == better(a@, b@, sap.elder_names(), t@),
        !r && a.name@ != b.name@ ==> better(b@, a@, sap.elder_names(), t@),
{
    if a.age != b.age {
        return a.age > b.age;
    }
    let ea = sap.contains_elder(&a.name);
    let eb = sap.contains_elder(&b.name);
    if ea != eb {
        return ea;
    }
    let c = cmp_distance(t, &a.name, &b.name);
    proof {
        if c == 0 {
            lemma_same_name_equal(a.name@, b.name@);
        }
    }
    c == -1
}

/// A ranked selection: `s` holds the best `min(k, |e|)` peers of `e`, best first.
pub open spec fn is_top(s: Seq<PeerView>, e: Set<PeerView>, k: nat, elders: Set<Seq<u8>>, t: Seq<u8>) -> bool {
    &&& s.len() <= k
    &&& s.no_duplicates()
    &&& forall|i: int| 0 <= i < s.len() ==> e.contains(#[trigger] s[i])
    &&& forall|i: int, j: int| 0 <= i < j < s.len() ==> better(#[trigger] s[i], #[trigger] s[j], elders, t)
    &&& forall|x: PeerView, i: int|
        #![trigger better(s[i], x, elders, t)]
        e.contains(x) && !s.contains(x) && 0 <= i < s.len() ==> better(s[i], x, elders, t)
    &&& s.len() < k ==> forall|x: PeerView| e.contains(x) ==> #[trigger] s.contains(x)
}

/// A ranked selection is unique: it depends on the candidate set alone, not
/// on the order in which the candidates were held.
pub proof fn lemma_top_unique(s1: Seq<PeerView>, s2: Seq<PeerView>, e: Set<PeerView>, k: nat, elders: Set<Seq<u8>>, t: Seq<u8>)
    requires
        is_top(s1, e, k, elders, t),
        is_top(s2, e, k, elders, t),
    ensures
        s1 == s2,
    decreases k,
{
    if s1.len() == 0 || s2.len() == 0 {
        if s1.len() != 0 {
            assert(e.contains(s1[0]));
            assert(s2.contains(s1[0]));
        }
        if s2.len() != 0 {
            assert(e.contains(s2[0]));
            assert(s1.contains(s2[0]));
        }
        assert(s1 =~= s2);
        return;
    }
    let a = s1[0];
    let b = s2[0];
    if a != b {
        assert(e.contains(a));
        assert(e.contains(b));
        assert(better(b, a, elders, t)) by {
            if s2.contains(a) {
                let m = choose|m: int| 0 <= m < s2.len() && s2[m] == a;
                assert(m != 0);
                assert(better(s2[0], s2[m], elders, t));
            }
        }
        assert(better(a, b, elders, t)) by {
            if s1.contains(b) {
                let m = choose|m: int| 0 <= m < s1.len() && s1[m] == b;
                assert(m != 0);
                assert(better(s1[0], s1[m], elders, t));
            }
        }
        lemma_better_asymmetric(a, b, elders, t);
    }
    let e2 = e.remove(a);
    let t1 = s1.drop_first();
    let t2 = s2.drop_first();
    assert(is_top(t1, e2, (k - 1) as nat, elders, t)) by {
        assert forall|x: PeerView| e2.contains(x) && !t1.contains(x) implies !s1.contains(x) by {
            if s1.contains(x) {
                let m = choose|m: int| 0 <= m < s1.len() && s1[m] == x;
                assert(m != 0);
                assert(t1[m - 1] == x);
            }
        }
        assert forall|x: PeerView, i: int|
            e2.contains(x) && !t1.contains(x) && 0 <= i < t1.len() implies #[trigger] better(t1[i], x, elders, t) by {
            assert(!s1.contains(x));
            assert(t1[i] == s1[i + 1]);
        }
        assert forall|i: int, j: int| 0 <= i < j < t1.len() implies better(#[trigger] t1[i], #[trigger] t1[j], elders, t) by {
            assert(t1[i] == s1[i + 1] && t1[j] == s1[j + 1]);
        }
        assert forall|i: int| 0 <= i < t1.len() implies e2.contains(#[trigger] t1[i]) by {
            assert(t1[i] == s1[i + 1]);
            assert(s1[i + 1] != s1[0]);
        }
        if t1.len() < k - 1 {
            assert forall|x: PeerView| e2.contains(x) implies #[trigger] t1.contains(x) by {
                assert(s1.contains(x));
                let m = choose|m: int| 0 <= m < s1.len() && s1[m] == x;
                assert(m != 0);
                assert(t1[m - 1] == x);
            }
        }
    }
    assert(is_top(t2, e2, (k - 1) as nat, elders, t)) by {
        assert forall|x: PeerView| e2.contains(x) && !t2.contains(x) implies !s2.contains(x) by {
            if s2.contains(x) {
                let m = choose|m: int| 0 <= m < s2.len() && s2[m] == x;
                assert(m != 0);
                assert(t2[m - 1] == x);
            }
        }
        assert forall|x: PeerView, i: int|
            e2.contains(x) && !t2.contains(x) && 0 <= i < t2.len() implies #[trigger] better(t2[i], x, elders, t) by {
            assert(!s2.contains(x));
            assert(t2[i] == s2[i + 1]);
        }
        assert forall|i: int, j: int| 0 <= i < j < t2.len() implies better(#[trigger] t2[i], #[trigger] t2[j], elders, t) by {
            assert(t2[i] == s2[i + 1] && t2[j] == s2[j + 1]);
        }
        assert forall|i: int| 0 <= i < t2.len() implies e2.contains(#[trigger] t2[i]) by {
            assert(t2[i] == s2[i + 1]);
            assert(s2[i + 1] != s2[0]);
        }
        if t2.len() < k - 1 {
            assert forall|x: PeerView| e2.contains(x) implies #[trigger] t2.contains(x) by {
                assert(s2.contains(x));
                let m = choose|m: int| 0 <= m < s2.len() && s2[m] == x;
                assert(m != 0);
                assert(t2[m - 1] == x);
            }
        }
    }
    lemma_top_unique(t1, t2, e2, (k - 1) as nat, elders, t);
    assert(s1 =~= s2) by {
        assert forall|i: int| 0 <= i < s1.len() implies s1[i] == s2[i] by {
            if i > 0 {
                assert(t1[i - 1] == t2[i - 1]);
            }
        }
    }
}

/// The members of `s` whose names match `p`, in order.
pub open spec fn retained(s: Seq<SignedNodeState>, p: Seq<bool>) -> Seq<SignedNodeState>
    decreases s.len(),
{
    if s.len() == 0 {
        s
    } else if prefix_matches(p, s.last().value.peer.name@) {
        retained(s.drop_last(), p).push(s.last())
    } else {
        retained(s.drop_last(), p)
    }
}

proof fn lemma_retained_members(s: Seq<SignedNodeState>, p: Seq<bool>)
    ensures
        forall|i: int| 0 <= i < retained(s, p).len() ==> prefix_matches(p, #[trigger] retained(s, p)[i].value.peer.name@),
        forall|i: int| 0 <= i < retained(s, p).len() ==> s.contains(#[trigger] retained(s, p)[i]),
        retained(s, p).len() <= s.len(),
    decreases s.len(),
{
    if s.len() > 0 {
        lemma_retained_members(s.drop_last(), p);
        let r = retained(s, p);
        let r0 = retained(s.drop_last(), p);
        if prefix_matches(p, s.last().value.peer.name@) {
            assert(r == r0.push(s.last()));
        } else {
            assert(r == r0);
        }
        assert forall|i: int| 0 <= i < r.len() implies prefix_matches(p, #[trigger] r[i].value.peer.name@) by {
            if i < r0.len() {
                assert(r[i] == r0[i]);
                assert(prefix_matches(p, r0[i].value.peer.name@));
            }
        }
        assert forall|i: int| 0 <= i < r.len() implies s.contains(#[trigger] r[i]) by {
            if i < r0.len() {
                assert(r[i] == r0[i]);
                assert(s.drop_last().contains(r0[i]));
                let m = choose|m: int| 0 <= m < s.drop_last().len() && s.drop_last()[m] == r0[i];
                assert(s[m] == r[i]);
            } else {
                assert(s[s.len() - 1] == r[i]);
            }
        }
    }
}

/// Number of members of `s` eligible under `within`.
pub open spec fn eligible_count(s: Seq<SignedNodeState>, excluded: Set<Seq<u8>>, within: Seq<bool>) -> nat
    decreases s.len(),
{
    if s.len() == 0 {
        0
    } else {
        eligible_count(s.drop_last(), excluded, within) + if eligible(s.last(), excluded, within) { 1nat } else { 0nat }
    }
}

/// Which members a roster query keeps.
#[derive(Clone, Copy, Debug, PartialEq, Eq, Structural)]
pub enum PeerFilter {
    /// Joined members that are not Elders.
    Adults,
    /// Joined members that are not Elders.
    LiveAdults,
    /// Joined members and Elders.
    Active,
}

/// Whether `f` keeps the member `m`, given the current Elders.
pub open spec fn kept(f: PeerFilter, m: SignedNodeState, elders: Set<Seq<u8>>) -> bool {
    let joined = m.value.state is Joined;
    let elder = elders.contains(m.value.peer.name@);
    match f {
        PeerFilter::Adults => joined && !elder,
        PeerFilter::LiveAdults => joined && !elder,
        PeerFilter::Active => joined || elder,
    }
}

/// The peers of the members of `s` that `f` keeps, in order.
pub open spec fn peers_kept(s: Seq<SignedNodeState>, f: PeerFilter, elders: Set<Seq<u8>>) -> Seq<PeerView>
    decreases s.len(),
{
    if s.len() == 0 {
        Seq::empty()
    } else if kept(f, s.last(), elders) {
        peers_kept(s.drop_last(), f, elders).push(s.last().value.peer@)
    } else {
        peers_kept(s.drop_last(), f, elders)
    }
}

/// A member's peer, as seen by the ranking.
pub open spec fn peer_of(m: SignedNodeState) -> PeerView {
    m.value.peer@
}

/// A member may become an Elder: it is joined, mature, not excluded and under `within`.
pub open spec fn eligible(m: SignedNodeState, excluded: Set<Seq<u8>>, within: Seq<bool>) -> bool {
    &&& m.value.state is Joined
    &&& m.value.peer.age >= MIN_ADULT_AGE
    &&& !excluded.contains(m.value.peer.name@)
    &&& prefix_matches(within, m.value.peer.name@)
}

spec fn old_names_full(s: Seq<SignedNodeState>, m: int) -> bool {
    s[m].value.peer.name@.len() == NAME_LEN
}

proof fn lemma_retained_unique(s: Seq<SignedNodeState>, p: Seq<bool>)
    requires
        forall|i: int, j: int|
            0 <= i < s.len() && 0 <= j < s.len() && i != j ==> (#[trigger] s[i]).value.peer.name@
                != (#[trigger] s[j]).value.peer.name@,
    ensures
        forall|i: int, j: int|
            0 <= i < retained(s, p).len() && 0 <= j < retained(s, p).len() && i != j ==> (
            #[trigger] retained(s, p)[i]).value.peer.name@ != (#[trigger] retained(s, p)[j]).value.peer.name@,
    decreases s.len(),
{
    if s.len() > 0 {
        let d = s.drop_last();
        assert forall|i: int, j: int|
            0 <= i < d.len() && 0 <= j < d.len() && i != j implies (#[trigger] d[i]).value.peer.name@
                != (#[trigger] d[j]).value.peer.name@ by {
            assert(d[i] == s[i] && d[j] == s[j]);
        }
        lemma_retained_unique(d, p);
        lemma_retained_members(d, p);
        let r = retained(s, p);
        let r0 = retained(d, p);
        if prefix_matches(p, s.last().value.peer.name@) {
            assert forall|i: int, j: int|
                0 <= i < r.len() && 0 <= j < r.len() && i != j implies (#[trigger] r[i]).value.peer.name@
                    != (#[trigger] r[j]).value.peer.name@ by {
                if i < r0.len() && j < r0.len() {
                    assert(r[i] == r0[i] && r[j] == r0[j]);
                } else if i == r0.len() {
                    assert(d.contains(r0[j]));
                    let m = choose|m: int| 0 <= m < d.len() && d[m] == r0[j];
                    assert(s[m] == r[j]);
                    assert(s[s.len() - 1] == r[i]);
                } else {
                    assert(d.contains(r0[i]));
                    let m = choose|m: int| 0 <= m < d.len() && d[m] == r0[i];
                    assert(s[m] == r[i]);
                    assert(s[s.len() - 1] == r[j]);
                }
            }
        }
    }
}

/// The position of `n` in `s` (meaningful when `s` holds `n`).
pub open spec fn index_of_name(s: Seq<SignedNodeState>, n: Seq<u8>) -> int {
    choose|i: int| 0 <= i < s.len() && #[trigger] s[i].value.peer.name@ == n
}

/// `s` holds a state for `n`.
pub open spec fn holds_name(s: Seq<SignedNodeState>, n: Seq<u8>) -> bool {
    exists|i: int| 0 <= i < s.len() && #[trigger] s[i].value.peer.name@ == n
}

/// Whether an update with `e` changes the members `s`.
pub open spec fn update_accepts(s: Seq<SignedNodeState>, e: SignedNodeState) -> bool {
    let n = e.value.peer.name@;
    n.len() == NAME_LEN && (!holds_name(s, n) || may_replace(s[index_of_name(s, n)].value, e.value))
}

/// The members after an accepted update with `e`.
pub open spec fn updated(s: Seq<SignedNodeState>, e: SignedNodeState) -> Seq<SignedNodeState> {
    let n = e.value.peer.name@;
    if !holds_name(s, n) {
        s.push(e)
    } else {
        s.update(index_of_name(s, n), e)
    }
}

/// The members after an update with `e`, accepted or not.
pub open spec fn after_update(s: Seq<SignedNodeState>, e: SignedNodeState) -> Seq<SignedNodeState> {
    if update_accepts(s, e) {
        updated(s, e)
    } else {
        s
    }
}

/// No two members of `s` share a name.
pub open spec fn unique_names(s: Seq<SignedNodeState>) -> bool {
    forall|i: int, j: int|
        0 <= i < s.len() && 0 <= j < s.len() && i != j ==> (#[trigger] s[i]).value.peer.name@
            != (#[trigger] s[j]).value.peer.name@
}

/// Updating the roster twice with the same state changes nothing the second time.
pub proof fn lemma_update_idempotent(s: Seq<SignedNodeState>, e: SignedNodeState)
    requires
        unique_names(s),
    ensures
        after_update(after_update(s, e), e) == after_update(s, e),
{
    let s1 = after_update(s, e);
    let n = e.value.peer.name@;
    if update_accepts(s, e) {
        let i = if !holds_name(s, n) { s.len() as int } else { index_of_name(s, n) };
        assert(s1[i] == e);
        assert(holds_name(s1, n));
        let j = index_of_name(s1, n);
        assert(j == i) by {
            if j != i {
                if !holds_name(s, n) {
                    assert(s[j].value.peer.name@ == n);
                } else {
                    assert(s1[j] == s[j]);
                    assert(s[i].value.peer.name@ == n);
                }
            }
        }
        assert(!may_replace(e.value, e.value));
    }
}

impl SectionPeers {
    pub open spec fn name_at(&self, i: int) -> Seq<u8> {
        self.members@[i].value.peer.name@
    }

    /// Names are unique and of full length.
    pub open spec fn wf(&self) -> bool {
        &&& forall|i: int| 0 <= i < self.members@.len() ==> (#[trigger] self.name_at(i)).len() == NAME_LEN
        &&& forall|i: int, j: int|
            0 <= i < self.members@.len() && 0 <= j < self.members@.len() && i != j ==> self.name_at(i)
                != self.name_at(j)
    }

    /// The roster holds a state for `n`.
    pub open spec fn has_name(&self, n: Seq<u8>) -> bool {
        exists|i: int| 0 <= i < self.members@.len() && #[trigger] self.name_at(i) == n
    }

    /// Every member's name matches `p`.
    pub open spec fn all_match(&self, p: Seq<bool>) -> bool {
        forall|i: int| 0 <= i < self.members@.len() ==> prefix_matches(p, #[trigger] self.name_at(i))
    }

    /// The peers that may become Elders.
    pub open spec fn candidates(&self, excluded: Set<Seq<u8>>, within: Seq<bool>) -> Set<PeerView> {
        Set::new(
            |v: PeerView|
                exists|i: int|
                    0 <= i < self.members@.len() && eligible(#[trigger] self.members@[i], excluded, within)
                        && peer_of(self.members@[i]) == v,
        )
    }

    /// An empty roster.
    pub fn new() -> (r: SectionPeers)
        ensures
            r.wf(),
            r.members@.len() == 0,
    {
        SectionPeers { members: Vec::new() }
    }

    /// The position of `name`'s state, if any.
    pub fn find(&self, name: &Vec<u8>) -> (r: Option<usize>)
        requires
            self.wf(),
        ensures
            r matches Some(i) ==> i < self.members@.len() && self.name_at(i as int) == name@,
            r is None <==> !self.has_name(name@),
    {
        let mut i: usize = 0;
        while i < self.members.len()
            invariant
                i <= self.members@.len(),
                forall|j: int| 0 <= j < i ==> #[trigger] self.name_at(j) != name@,
            decreases self.members@.len() - i,
        {
            if self.members[i].value.peer.name == *name {
                assert(self.name_at(i as int) =~= name@);
                return Some(i);
            }
            i += 1;
        }
        None
    }

    /// Whether `name` is a joined member.
    pub fn is_joined(&self, name: &Vec<u8>) -> (r: bool)
        requires
            self.wf(),
        ensures
            r == exists|i: int|
                0 <= i < self.members@.len() && #[trigger] self.name_at(i) == name@
                    && self.members@[i].value.state is Joined,
    {
        match self.find(name) {
            Some(i) => {
                let r = matches!(self.members[i].value.state, MembershipState::Joined);
                proof {
                    assert forall|j: int| 0 <= j < self.members@.len() && #[trigger] self.name_at(j) == name@ implies j == i by {
                        if j != i {
                            assert(self.name_at(j) != self.name_at(i as int));
                        }
                    }
                }
                r
            },
            None => false,
        }
    }

    /// Records a member state. A new name (of full length) is added; for a
    /// known name the state is replaced if `may_replace` allows it. Returns
    /// whether anything changed.
    pub fn update(&mut self, e: SignedNodeState) -> (r: bool)
        requires
            old(self).wf(),
        ensures
            final(self).wf(),
            e.value.peer.name@.len() != NAME_LEN ==> !r,
            e.value.peer.name@.len() == NAME_LEN && !old(self).has_name(e.value.peer.name@) ==> r
                && final(self).members@ == old(self).members@.push(e),
            forall|i: int|
                0 <= i < old(self).members@.len() && #[trigger] old(self).name_at(i) == e.value.peer.name@
                    ==> r == may_replace(old(self).members@[i].value, e.value) && (r ==> final(self).members@
                    == old(self).members@.update(i, e)),
            !r ==> *final(self) == *old(self),
            r == update_accepts(old(self).members@, e),
            final(self).members@ == after_update(old(self).members@, e),
    {
        if e.value.peer.name.len() != NAME_LEN {
            return false;
        }
        match self.find(&e.value.peer.name) {
            None => {
                let ghost prev = *self;
                let ghost ev = e;
                proof {
                    if holds_name(self.members@, e.value.peer.name@) {
                        let q = choose|q: int| 0 <= q < self.members@.len() && #[trigger] self.members@[q].value.peer.name@ == e.value.peer.name@;
                        assert(self.name_at(q) == e.value.peer.name@);
                    }
                }
                self.members.push(e);
                proof {
                    assert forall|i: int, j: int|
                        0 <= i < self.members@.len() && 0 <= j < self.members@.len() && i != j implies self.name_at(i)
                        != self.name_at(j) by {
                        let n = prev.members@.len() as int;
                        if i < n && j < n {
                            assert(self.name_at(i) == prev.name_at(i) && self.name_at(j) == prev.name_at(j));
                        } else if i == n {
                            assert(self.name_at(j) == prev.name_at(j));
                        } else {
                            assert(self.name_at(i) == prev.name_at(i));
                        }
                    }
                    assert forall|i: int| 0 <= i < self.members@.len() implies (#[trigger] self.name_at(i)).len() == NAME_LEN by {
                        if i < prev.members@.len() {
                            assert(self.name_at(i) == prev.name_at(i));
                        }
                    }
                }
                true
            },
            Some(i) => {
                let ok = match (&self.members[i].value.state, &e.value.state) {
                    (MembershipState::Joined, MembershipState::Joined) => e.value.peer.age > self.members[i].value.peer.age,
                    (MembershipState::Joined, MembershipState::Left) => true,
                    (MembershipState::Joined, MembershipState::Relocated(_)) => true,
                    (MembershipState::Relocated(_), MembershipState::Left) => true,
                    _ => false,
                };
                proof {
                    assert forall|j: int| 0 <= j < self.members@.len() && #[trigger] self.name_at(j) == e.value.peer.name@ implies j == i by {
                        if j != i {
                            assert(self.name_at(j) != self.name_at(i as int));
                        }
                    }
                    assert(holds_name(self.members@, e.value.peer.name@));
                    let q = index_of_name(self.members@, e.value.peer.name@);
                    assert(self.name_at(q) == e.value.peer.name@);
                    assert(q == i);
                }
                if !ok {
                    return false;
                }
                let ghost prev = *self;
                self.members.set(i, e);
                proof {
                    assert forall|a: int| 0 <= a < self.members@.len() && a != i implies #[trigger] self.name_at(a) == prev.name_at(a) by {}
                    assert(self.name_at(i as int) == prev.name_at(i as int));
                    assert forall|a: int| 0 <= a < self.members@.len() implies (#[trigger] self.name_at(a)).len() == NAME_LEN by {
                        if a != i {
                            assert(self.name_at(a) == prev.name_at(a));
                        }
                    }
                    assert forall|a: int, b: int|
                        0 <= a < self.members@.len() && 0 <= b < self.members@.len() && a != b implies self.name_at(a)
                        != self.name_at(b) by {
                        assert(self.name_at(a) == prev.name_at(a));
                        assert(self.name_at(b) == prev.name_at(b));
                    }
                }
                true
            },
        }
    }

    /// Drops the members whose names fall outside `p`, keeping the others in order.
    pub fn retain(&mut self, p: &Prefix)
        requires
            old(self).wf(),
        ensures
            final(self).wf(),
            final(self).members@ == retained(old(self).members@, p@),
            final(self).all_match(p@),
    {
        let ghost orig = self.members@;
        proof {
            assert forall|i: int, j: int|
                0 <= i < orig.len() && 0 <= j < orig.len() && i != j implies (#[trigger] orig[i]).value.peer.name@
                    != (#[trigger] orig[j]).value.peer.name@ by {
                assert(self.name_at(i) != self.name_at(j));
            }
            assert forall|m: int| 0 <= m < orig.len() implies #[trigger] old_names_full(orig, m) by {
                assert(self.name_at(m).len() == NAME_LEN);
            }
        }
        let mut kept: Vec<SignedNodeState> = Vec::new();
        let mut rest: Vec<SignedNodeState> = Vec::new();
        std::mem::swap(&mut rest, &mut self.members);
        let mut tail: Vec<SignedNodeState> = Vec::new();
        // Take the members out from the back, then restore their order.
        while rest.len() > 0
            invariant
                orig == rest@ + tail@.reverse(),
            decreases rest@.len(),
        {
            let m = rest.pop().unwrap();
            tail.push(m);
            assert(orig =~= rest@ + tail@.reverse());
        }
        assert(tail@.reverse() =~= orig);
        let mut i: usize = 0;
        let n = tail.len();
        while tail.len() > 0
            invariant
                tail@.len() + i == n,
                n == orig.len(),
                tail@.reverse() == orig.subrange(i as int, n as int),
                kept@ == retained(orig.subrange(0, i as int), p@),
            decreases tail@.len(),
        {
            let ghost before = tail@;
            let m = tail.pop().unwrap();
            assert(m == orig[i as int]) by {
                assert(before.reverse()[0] == before[before.len() - 1]);
            }
            assert(tail@.reverse() =~= orig.subrange(i as int + 1, n as int)) by {
                assert forall|q: int| 0 <= q < tail@.len() implies tail@.reverse()[q] == orig.subrange(i as int + 1, n as int)[q] by {
                    assert(before.reverse()[q + 1] == orig.subrange(i as int, n as int)[q + 1]);
                }
            }
            let ghost s = orig.subrange(0, i as int + 1);
            assert(s.drop_last() =~= orig.subrange(0, i as int));
            if p.matches(&m.value.peer.name) {
                kept.push(m);
            }
            i += 1;
        }
        assert(orig.subrange(0, n as int) =~= orig);
        self.members = kept;
        proof {
            lemma_retained_members(orig, p@);
            lemma_retained_unique(orig, p@);
            assert forall|a: int| 0 <= a < self.members@.len() implies (#[trigger] self.name_at(a)).len() == NAME_LEN by {
                assert(orig.contains(self.members@[a]));
                let m = choose|m: int| 0 <= m < orig.len() && orig[m] == self.members@[a];
                assert(old_names_full(orig, m));
            }
        }
    }

    /// Whether member `i` may become an Elder.
    fn is_eligible(&self, i: usize, excluded: &Vec<Vec<u8>>, within: &Prefix) -> (r: bool)
        requires
            i < self.members@.len(),
        ensures
            r == eligible(self.members@[i as int], name_set(excluded@), within@),
    {
        let m = &self.members[i];
        matches!(m.value.state, MembershipState::Joined) && m.value.peer.age >= MIN_ADULT_AGE
            && !contains_name(excluded, &m.value.peer.name) && within.matches(&m.value.peer.name)
    }

    /// The best `k` eligible members under `within`, best first, ranked by
    /// age, then current Elders, then XOR distance to `target`.
    pub fn select_candidates(
        &self,
        k: usize,
        sap: &SectionAuthorityProvider,
        excluded: &Vec<Vec<u8>>,
        within: &Prefix,
        target: &Vec<u8>,
    ) -> (r: Vec<Peer>)
        requires
            self.wf(),
        ensures
            is_top(
                crate::sap::peers_view(r@),
                self.candidates(name_set(excluded@), within@),
                k as nat,
                sap.elder_names(),
                target@,
            ),
    {
        let n = self.members.len();
        let ghost ex = name_set(excluded@);
        let ghost el = sap.elder_names();
        let ghost e = self.candidates(ex, within@);
        let mut elig: Vec<bool> = Vec::new();
        let mut chosen: Vec<bool> = Vec::new();
        let mut i: usize = 0;
        while i < n
            invariant
                n == self.members@.len(),
                ex == name_set(excluded@),
                i <= n,
                elig@.len() == i,
                chosen@.len() == i,
                forall|j: int| 0 <= j < i ==> #[trigger] elig@[j] == eligible(self.members@[j], ex, within@),
                forall|j: int| 0 <= j < i ==> !#[trigger] chosen@[j],
            decreases n - i,
        {
            let x = self.is_eligible(i, excluded, within);
            let ghost old_elig = elig@;
            elig.push(x);
            chosen.push(false);
            proof {
                assert forall|j: int| 0 <= j < i + 1 implies #[trigger] elig@[j] == eligible(self.members@[j], ex, within@) by {
                    if j < i {
                        assert(elig@[j] == old_elig[j]);
                    }
                }
            }
            i += 1;
        }
        let mut res: Vec<Peer> = Vec::new();
        let ghost mut ridx: Seq<int> = Seq::empty();
        let mut done = false;
        while !done && res.len() < k
            invariant
                self.wf(),
                n == self.members@.len(),
                ex == name_set(excluded@),
                el == sap.elder_names(),
                elig@.len() == n,
                chosen@.len() == n,
                forall|j: int| 0 <= j < n ==> #[trigger] elig@[j] == eligible(self.members@[j], ex, within@),
                ridx.len() == res@.len(),
                res@.len() <= k,
                forall|a: int| 0 <= a < ridx.len() ==> 0 <= #[trigger] ridx[a] < n,
                forall|a: int| 0 <= a < ridx.len() ==> elig@[#[trigger] ridx[a]] && chosen@[ridx[a]],
                forall|j: int| 0 <= j < n && #[trigger] chosen@[j] ==> exists|a: int| 0 <= a < ridx.len() && ridx[a] == j,
                forall|a: int, b: int| 0 <= a < b < ridx.len() ==> ridx[a] != ridx[b],
                forall|a: int| 0 <= a < ridx.len() ==> (#[trigger] res@[a])@ == peer_of(self.members@[ridx[a]]),
                forall|a: int, b: int| 0 <= a < b < res@.len() ==> better(#[trigger] res@[a]@, #[trigger] res@[b]@, el, target@),
                forall|a: int, j: int|
                    #![trigger res@[a], elig@[j]]
                    0 <= a < res@.len() && 0 <= j < n && elig@[j] && !chosen@[j] ==> better(res@[a]@, peer_of(self.members@[j]), el, target@),
                done ==> forall|j: int| 0 <= j < n && #[trigger] elig@[j] ==> chosen@[j],
            decreases k - res@.len() + if done { 0int } else { 1int },
        {
            let mut best: usize = n;
            let mut i: usize = 0;
            while i < n
                invariant
                    self.wf(),
                    n == self.members@.len(),
                    ex == name_set(excluded@),
                    el == sap.elder_names(),
                    elig@.len() == n,
                    chosen@.len() == n,
                    forall|j: int| 0 <= j < n ==> #[trigger] elig@[j] == eligible(self.members@[j], ex, within@),
                    i <= n,
                    best == n || (best < i && elig@[best as int] && !chosen@[best as int]),
                    best == n ==> forall|j: int| 0 <= j < i ==> !(#[trigger] elig@[j] && !chosen@[j]),
                    best < n ==> forall|j: int|
                        0 <= j < i && #[trigger] elig@[j] && !chosen@[j] && j != best ==> better(
                            peer_of(self.members@[best as int]),
                            peer_of(self.members@[j]),
                            el,
                            target@,
                        ),
                decreases n - i,
            {
                if elig[i] && !chosen[i] {
                    if best == n {
                        best = i;
                    } else {
                        assert(self.name_at(i as int).len() == NAME_LEN);
                        assert(self.name_at(best as int).len() == NAME_LEN);
                        assert(self.name_at(i as int) != self.name_at(best as int));
                        let b = is_better(&self.members[i].value.peer, &self.members[best].value.peer, sap, target);
                        if b {
                            proof {
                                assert(better(peer_of(self.members@[i as int]), peer_of(self.members@[best as int]), el, target@));
                                assert forall|j: int|
                                    0 <= j < i + 1 && #[trigger] elig@[j] && !chosen@[j] && j != i implies better(
                                    peer_of(self.members@[i as int]),
                                    peer_of(self.members@[j]),
                                    el,
                                    target@,
                                ) by {
                                    if j != best {
                                        assert(j < i);
                                        assert(better(peer_of(self.members@[best as int]), peer_of(self.members@[j]), el, target@));
                                        lemma_better_transitive(
                                            peer_of(self.members@[i as int]),
                                            peer_of(self.members@[best as int]),
                                            peer_of(self.members@[j]),
                                            el,
                                            target@,
                                        );
                                    }
                                }
                            }
                            best = i;
                        }
                    }
                }
                i += 1;
            }
            if best == n {
                done = true;
            } else {
                let ghost old_res = res@;
                let ghost old_chosen = chosen@;
                let ghost old_ridx = ridx;
                chosen.set(best, true);
                res.push(self.members[best].value.peer.duplicate());
                proof {
                    ridx = ridx.push(best as int);
                    let bv = peer_of(self.members@[best as int]);
                    assert(res@[res@.len() - 1]@ == bv);
                    assert forall|a: int| 0 <= a < ridx.len() implies (#[trigger] res@[a])@ == peer_of(self.members@[ridx[a]]) by {
                        if a < old_ridx.len() {
                            assert(res@[a] == old_res[a]);
                        }
                    }
                    assert forall|a: int, b: int| 0 <= a < b < res@.len() implies better(#[trigger] res@[a]@, #[trigger] res@[b]@, el, target@) by {
                        if b < old_res.len() {
                            assert(res@[a] == old_res[a] && res@[b] == old_res[b]);
                        } else {
                            assert(res@[a] == old_res[a]);
                            assert(elig@[best as int] && !old_chosen[best as int]);
                        }
                    }
                    assert forall|a: int, j: int|
                        #![trigger res@[a], elig@[j]]
                        0 <= a < res@.len() && 0 <= j < n && elig@[j] && !chosen@[j] implies better(res@[a]@, peer_of(self.members@[j]), el, target@) by {
                        assert(j != best);
                        assert(!old_chosen[j]);
                        if a < old_res.len() {
                            assert(res@[a] == old_res[a]);
                        } else {
                            assert(self.name_at(j) != self.name_at(best as int));
                        }
                    }
                    assert forall|j: int| 0 <= j < n && #[trigger] chosen@[j] implies exists|a: int| 0 <= a < ridx.len() && ridx[a] == j by {
                        if j == best {
                            assert(ridx[ridx.len() - 1] == j);
                        } else {
                            assert(old_chosen[j]);
                            let a = choose|a: int| 0 <= a < old_ridx.len() && old_ridx[a] == j;
                            assert(ridx[a] == j);
                        }
                    }
                    assert forall|a: int| 0 <= a < ridx.len() implies elig@[#[trigger] ridx[a]] && chosen@[ridx[a]] by {
                        if a < old_ridx.len() {
                            assert(ridx[a] == old_ridx[a]);
                        }
                    }
                    assert forall|a: int, b: int| 0 <= a < b < ridx.len() implies ridx[a] != ridx[b] by {
                        if b == old_ridx.len() {
                            assert(old_chosen[old_ridx[a]]);
                        } else {
                            assert(ridx[a] == old_ridx[a] && ridx[b] == old_ridx[b]);
                        }
                    }
                }
            }
        }
        proof {
            let s = crate::sap::peers_view(res@);
            assert forall|a: int| 0 <= a < s.len() implies #[trigger] s[a] == peer_of(self.members@[ridx[a]]) by {}
            assert(s.no_duplicates()) by {
                assert forall|a: int, b: int| 0 <= a < s.len() && 0 <= b < s.len() && a != b implies s[a] != s[b] by {
                    assert(self.name_at(ridx[a]) != self.name_at(ridx[b]));
                }
            }
            assert forall|a: int| 0 <= a < s.len() implies e.contains(#[trigger] s[a]) by {
                assert(eligible(self.members@[ridx[a]], ex, within@) && peer_of(self.members@[ridx[a]]) == s[a]);
            }
            assert forall|a: int, b: int| 0 <= a < b < s.len() implies better(#[trigger] s[a], #[trigger] s[b], el, target@) by {
                assert(better(res@[a]@, res@[b]@, el, target@));
            }
            assert forall|x: PeerView, a: int|
                #![trigger better(s[a], x, el, target@)]
                e.contains(x) && !s.contains(x) && 0 <= a < s.len() implies better(s[a], x, el, target@) by {
                let j = choose|j: int|
                    0 <= j < self.members@.len() && eligible(#[trigger] self.members@[j], ex, within@)
                        && peer_of(self.members@[j]) == x;
                assert(elig@[j]);
                if chosen@[j] {
                    let b = choose|b: int| 0 <= b < ridx.len() && ridx[b] == j;
                    assert(s[b] == x);
                }
                assert(better(res@[a]@, peer_of(self.members@[j]), el, target@));
            }
            if s.len() < k {
                assert forall|x: PeerView| e.contains(x) implies #[trigger] s.contains(x) by {
                    let j = choose|j: int|
                        0 <= j < self.members@.len() && eligible(#[trigger] self.members@[j], ex, within@)
                            && peer_of(self.members@[j]) == x;
                    assert(elig@[j]);
                    assert(chosen@[j]);
                    let b = choose|b: int| 0 <= b < ridx.len() && ridx[b] == j;
                    assert(s[b] == x);
                }
            }
        }
        res
    }

    /// The best `k` eligible members, ranked against the current SAP's prefix.
    pub fn elder_candidates(&self, k: usize, sap: &SectionAuthorityProvider, excluded: &Vec<Vec<u8>>) -> (r: Vec<Peer>)
        requires
            self.wf(),
        ensures
            is_top(
                crate::sap::peers_view(r@),
                self.candidates(name_set(excluded@), Seq::empty()),
                k as nat,
                sap.elder_names(),
                prefix_name(sap.prefix@),
            ),
    {
        let target = sap.prefix.name();
        self.select_candidates(k, sap, excluded, &Prefix::root(), &target)
    }

    /// The best `k` eligible members whose names fall under `prefix`, ranked
    /// against that prefix.
    pub fn elder_candidates_matching_prefix(
        &self,
        prefix: &Prefix,
        k: usize,
        sap: &SectionAuthorityProvider,
        excluded: &Vec<Vec<u8>>,
    ) -> (r: Vec<Peer>)
        requires
            self.wf(),
        ensures
            is_top(
                crate::sap::peers_view(r@),
                self.candidates(name_set(excluded@), prefix@),
                k as nat,
                sap.elder_names(),
                prefix_name(prefix@),
            ),
    {
        let target = prefix.name();
        self.select_candidates(k, sap, excluded, prefix, &target)
    }

    /// Number of eligible members under `within`.
    pub fn count_eligible(&self, excluded: &Vec<Vec<u8>>, within: &Prefix) -> (r: usize)
        ensures
            r == eligible_count(self.members@, name_set(excluded@), within@),
    {
        let mut c: usize = 0;
        let mut i: usize = 0;
        while i < self.members.len()
            invariant
                i <= self.members@.len(),
                c <= i,
                c == eligible_count(self.members@.subrange(0, i as int), name_set(excluded@), within@),
            decreases self.members@.len() - i,
        {
            let ghost sub = self.members@.subrange(0, i as int + 1);
            assert(sub.drop_last() =~= self.members@.subrange(0, i as int));
            if self.is_eligible(i, excluded, within) {
                c += 1;
            }
            i += 1;
        }
        assert(self.members@.subrange(0, i as int) =~= self.members@);
        c
    }

    /// The peers of the members that `f` keeps, in order.
    pub fn collect(&self, f: PeerFilter, sap: &SectionAuthorityProvider) -> (r: Vec<Peer>)
        ensures
            crate::sap::peers_view(r@) == peers_kept(self.members@, f, sap.elder_names()),
    {
        let mut out: Vec<Peer> = Vec::new();
        let mut i: usize = 0;
        while i < self.members.len()
            invariant
                i <= self.members@.len(),
                crate::sap::peers_view(out@) == peers_kept(self.members@.subrange(0, i as int), f, sap.elder_names()),
            decreases self.members@.len() - i,
        {
            let ghost sub = self.members@.subrange(0, i as int + 1);
            assert(sub.drop_last() =~= self.members@.subrange(0, i as int));
            let m = &self.members[i];
            let joined = matches!(m.value.state, MembershipState::Joined);
            let elder = sap.contains_elder(&m.value.peer.name);
            let keep = match f {
                PeerFilter::Adults => joined && !elder,
                PeerFilter::LiveAdults => joined && !elder,
                PeerFilter::Active => joined || elder,
            };
            if keep {
                let ghost before = out@;
                out.push(m.value.peer.duplicate());
                proof {
                    assert(crate::sap::peers_view(out@) =~= crate::sap::peers_view(before).push(m.value.peer@));
                }
            }
            i += 1;
        }
        assert(self.members@.subrange(0, i as int) =~= self.members@);
        out
    }

    /// The first joined member with address `addr`.
    pub fn find_joined_by_addr(&self, addr: &Vec<u8>) -> (r: Option<Peer>)
        ensures
            r matches Some(p) ==> exists|i: int|
                0 <= i < self.members@.len() && #[trigger] self.members@[i].value.peer@ == p@
                    && self.members@[i].value.state is Joined && p.addr@ == addr@,
            r is None ==> forall|i: int|
                0 <= i < self.members@.len() && (#[trigger] self.members@[i]).value.state is Joined
                    ==> self.members@[i].value.peer.addr@ != addr@,
    {
        let mut i: usize = 0;
        while i < self.members.len()
            invariant
                i <= self.members@.len(),
                forall|j: int|
                    0 <= j < i && (#[trigger] self.members@[j]).value.state is Joined ==> self.members@[j].value.peer.addr@
                        != addr@,
            decreases self.members@.len() - i,
        {
            let m = &self.members[i];
            if matches!(m.value.state, MembershipState::Joined) && m.value.peer.addr == *addr {
                let p = m.value.peer.duplicate();
                assert(p.addr@ =~= addr@);
                assert(self.members@[i as int].value.peer@ == p@);
                return Some(p);
            }
            proof {
                if m.value.state is Joined {
                    assert(!(m.value.peer.addr@ =~= addr@));
                }
            }
            i += 1;
        }
        None
    }
}

/// Peers ordered by XOR distance of their names to `target`, closest first.
pub open spec fn sorted_by_distance(s: Seq<PeerView>, target: Seq<u8>) -> bool {
    forall|i: int, j: int| 0 <= i < j < s.len() ==> !closer(#[trigger] s[j].name, #[trigger] s[i].name, target)
}

proof fn lemma_insert_sorted(before: Seq<PeerView>, pos: int, x: PeerView, target: Seq<u8>)
    requires
        sorted_by_distance(before, target),
        0 <= pos <= before.len(),
        forall|k: int| 0 <= k < pos ==> !closer(x.name, #[trigger] before[k].name, target),
        pos < before.len() ==> closer(x.name, before[pos].name, target),
    ensures
        sorted_by_distance(before.insert(pos, x), target),
{
    let a = before.insert(pos, x);
    assert forall|i: int, j: int| 0 <= i < j < a.len() implies !closer(#[trigger] a[j].name, #[trigger] a[i].name, target) by {
        if j < pos {
            assert(a[i] == before[i] && a[j] == before[j]);
        } else if j == pos {
            assert(a[i] == before[i]);
        } else if i == pos {
            assert(a[j] == before[j - 1]);
            if closer(before[j - 1].name, x.name, target) {
                lemma_closer_transitive(before[j - 1].name, x.name, before[pos].name, target);
                if j - 1 == pos {
                    lemma_closer_asymmetric(before[pos].name, before[pos].name, target);
                } else {
                    assert(!closer(before[j - 1].name, before[pos].name, target));
                }
            }
        } else if i < pos {
            assert(a[i] == before[i] && a[j] == before[j - 1]);
        } else {
            assert(a[i] == before[i - 1] && a[j] == before[j - 1]);
        }
    }
}

proof fn lemma_insert_contains(before: Seq<PeerView>, pos: int, x: PeerView, tail0: Seq<PeerView>)
    requires
        0 <= pos <= before.len(),
        forall|y: PeerView| before.contains(y) <==> tail0.contains(y),
    ensures
        forall|y: PeerView| before.insert(pos, x).contains(y) <==> (seq![x] + tail0).contains(y),
{
    let after = before.insert(pos, x);
    let tail = seq![x] + tail0;
    assert forall|y: PeerView| after.contains(y) <==> tail.contains(y) by {
        if after.contains(y) {
            let q = choose|q: int| 0 <= q < after.len() && after[q] == y;
            if q == pos {
                assert(tail[0] == y);
            } else {
                let q0 = if q < pos { q } else { q - 1 };
                assert(before[q0] == y);
                assert(tail0.contains(y));
                let w = choose|w: int| 0 <= w < tail0.len() && tail0[w] == y;
                assert(tail[w + 1] == y);
            }
        }
        if tail.contains(y) {
            let w = choose|w: int| 0 <= w < tail.len() && tail[w] == y;
            if w == 0 {
                assert(after[pos] == y);
            } else {
                assert(tail0[w - 1] == y);
                assert(before.contains(y));
                let q0 = choose|q: int| 0 <= q < before.len() && before[q] == y;
                if q0 < pos {
                    assert(after[q0] == y);
                } else {
                    assert(after[q0 + 1] == y);
                }
            }
        }
    }
}

/// `peers` ordered by the XOR distance of their names to `target`, closest
/// first; the same peers, each kept.
pub fn sort_by_distance(peers: Vec<Peer>, target: &Vec<u8>) -> (r: Vec<Peer>)
    ensures
        r@.len() == peers@.len(),
        sorted_by_distance(crate::sap::peers_view(r@), target@),
        forall|x: PeerView| crate::sap::peers_view(r@).contains(x) <==> crate::sap::peers_view(peers@).contains(x),
{
    let ghost orig = crate::sap::peers_view(peers@);
    let mut out: Vec<Peer> = Vec::new();
    let mut rest = peers;
    while rest.len() > 0
        invariant
            out@.len() + rest@.len() == orig.len(),
            crate::sap::peers_view(rest@) == orig.subrange(0, rest@.len() as int),
            sorted_by_distance(crate::sap::peers_view(out@), target@),
            forall|x: PeerView| crate::sap::peers_view(out@).contains(x) <==> orig.subrange(rest@.len() as int, orig.len() as int).contains(x),
        decreases rest@.len(),
    {
        let ghost n = rest@.len() as int;
        let ghost rest_before = crate::sap::peers_view(rest@);
        let p = rest.pop().unwrap();
        proof {
            assert(crate::sap::peers_view(rest@) =~= orig.subrange(0, n - 1)) by {
                assert forall|q: int| 0 <= q < n - 1 implies crate::sap::peers_view(rest@)[q] == orig.subrange(0, n - 1)[q] by {
                    assert(rest_before[q] == orig[q]);
                }
            }
            assert(p@ == orig[n - 1]) by {
                assert(rest_before[n - 1] == orig[n - 1]);
            }
        }
        let mut pos: usize = 0;
        let mut found = false;
        while !found && pos < out.len()
            invariant
                pos <= out@.len(),
                forall|k: int| 0 <= k < pos ==> !closer(p.name@, #[trigger] out@[k].name@, target@),
                found ==> pos < out@.len() && closer(p.name@, out@[pos as int].name@, target@),
            decreases out@.len() - pos + if found { 0int } else { 1int },
        {
            if cmp_distance(target, &p.name, &out[pos].name) == -1 {
                found = true;
            } else {
                pos += 1;
            }
        }
        let ghost before = crate::sap::peers_view(out@);
        proof {
            assert forall|k: int| 0 <= k < pos implies !closer(p@.name, #[trigger] before[k].name, target@) by {
                assert(before[k] == out@[k]@);
            }
            if pos < before.len() {
                assert(found);
                assert(before[pos as int] == out@[pos as int]@);
            }
            lemma_insert_sorted(before, pos as int, p@, target@);
        }
        let ghost pv = p@;
        out.insert(pos, p);
        proof {
            let after = crate::sap::peers_view(out@);
            assert(after =~= before.insert(pos as int, pv));
            let tail0 = orig.subrange(n, orig.len() as int);
            assert(orig.subrange(n - 1, orig.len() as int) =~= seq![pv] + tail0);
            lemma_insert_contains(before, pos as int, pv, tail0);
        }
    }
    proof {
        assert(orig.subrange(0, orig.len() as int) =~= orig);
    }
    out
}

} // verus!
