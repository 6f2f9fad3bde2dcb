//! Laws that relate several operations of the library.

use crate::chain::SectionChain;
use crate::name::{name_bit, prefix_matches, prefix_siblings};
use crate::name::NAME_LEN;
use crate::roster::{after_update, holds_name, index_of_name, is_top, lemma_top_unique, may_replace, unique_names, update_accepts, updated, SectionPeers};
use crate::sap::SignedNodeState;
use crate::section::{merge_step, merged};
use crate::sap::PeerView;
use vstd::prelude::*;

verus! {

/// Elder candidates depend on the roster's members, not on the order in which
/// it holds them: two rosters with the same members give the same ranked
/// selection for the same inputs.
pub proof fn lemma_candidates_order_free(
    r1: SectionPeers,
    r2: SectionPeers,
    k: nat,
    elders: Set<Seq<u8>>,
    excluded: Set<Seq<u8>>,
    within: Seq<bool>,
    target: Seq<u8>,
    s1: Seq<PeerView>,
    s2: Seq<PeerView>,
)
    requires
        r1.members@.to_set() == r2.members@.to_set(),
        is_top(s1, r1.candidates(excluded, within), k, elders, target),
        is_top(s2, r2.candidates(excluded, within), k, elders, target),
    ensures
        s1 == s2,
{
    assert forall|v: PeerView| r1.candidates(excluded, within).contains(v) implies r2.candidates(excluded, within).contains(v) by {
        let i = choose|i: int|
            0 <= i < r1.members@.len() && crate::roster::eligible(#[trigger] r1.members@[i], excluded, within)
                && crate::roster::peer_of(r1.members@[i]) == v;
        assert(r1.members@.to_set().contains(r1.members@[i]));
        assert(r2.members@.to_set().contains(r1.members@[i]));
        let j = choose|j: int| 0 <= j < r2.members@.len() && r2.members@[j] == r1.members@[i];
        assert(crate::roster::eligible(r2.members@[j], excluded, within));
    }
    assert forall|v: PeerView| r2.candidates(excluded, within).contains(v) implies r1.candidates(excluded, within).contains(v) by {
        let i = choose|i: int|
            0 <= i < r2.members@.len() && crate::roster::eligible(#[trigger] r2.members@[i], excluded, within)
                && crate::roster::peer_of(r2.members@[i]) == v;
        assert(r2.members@.to_set().contains(r2.members@[i]));
        assert(r1.members@.to_set().contains(r2.members@[i]));
        let j = choose|j: int| 0 <= j < r1.members@.len() && r1.members@[j] == r2.members@[i];
        assert(crate::roster::eligible(r1.members@[j], excluded, within));
    }
    assert(r1.candidates(excluded, within) =~= r2.candidates(excluded, within));
    lemma_top_unique(s1, s2, r1.candidates(excluded, within), k, elders, target);
}

/// The two halves of a split are siblings that cover their parent: a name
/// under the parent falls under exactly one of them.
pub proof fn lemma_split_halves_cover(p: Seq<bool>, b: bool, n: Seq<u8>)
    ensures
        prefix_siblings(p.push(b), p.push(!b)),
        prefix_matches(p, n) <==> (prefix_matches(p.push(b), n) || prefix_matches(p.push(!b), n)),
        !(prefix_matches(p.push(b), n) && prefix_matches(p.push(!b), n)),
{
    assert(p.push(b).drop_last() =~= p);
    assert(p.push(!b).drop_last() =~= p);
    let l = p.len() as int;
    if prefix_matches(p.push(b), n) {
        assert forall|i: int| 0 <= i < p.len() implies #[trigger] p[i] == name_bit(n, i) by {
            assert(p.push(b)[i] == p[i]);
        }
    }
    if prefix_matches(p.push(!b), n) {
        assert forall|i: int| 0 <= i < p.len() implies #[trigger] p[i] == name_bit(n, i) by {
            assert(p.push(!b)[i] == p[i]);
        }
    }
    if prefix_matches(p, n) {
        let nb = name_bit(n, l);
        let c = if nb == b { p.push(b) } else { p.push(!b) };
        assert forall|i: int| 0 <= i < c.len() implies #[trigger] c[i] == name_bit(n, i) by {
            if i < l {
                assert(c[i] == p[i]);
            }
        }
        assert(prefix_matches(c, n));
    }
    if prefix_matches(p.push(b), n) && prefix_matches(p.push(!b), n) {
        assert(p.push(b)[l] == name_bit(n, l));
        assert(p.push(!b)[l] == name_bit(n, l));
    }
}

/// After a chain absorbed `other` (it holds exactly its old keys and those of
/// `other`), it holds every key of `other`; so merging `other` again changes
/// nothing.
pub proof fn lemma_merge_again_changes_nothing(before: SectionChain, after: SectionChain, other: SectionChain)
    requires
        forall|k: Seq<u8>| #[trigger] after.has(k) <==> (before.has(k) || other.has(k)),
    ensures
        forall|k: Seq<u8>| #[trigger] other.has(k) ==> after.has(k),
{
}

/// The state held for the name `n` in `s`.
pub open spec fn held(s: Seq<SignedNodeState>, n: Seq<u8>) -> SignedNodeState {
    s[index_of_name(s, n)]
}

proof fn lemma_index_unique(s: Seq<SignedNodeState>, n: Seq<u8>, i: int)
    requires
        unique_names(s),
        0 <= i < s.len(),
        s[i].value.peer.name@ == n,
    ensures
        holds_name(s, n),
        index_of_name(s, n) == i,
{
    assert(holds_name(s, n));
    let j = index_of_name(s, n);
    if j != i {
        assert(s[j].value.peer.name@ == n);
    }
}

/// What an accepted update does to the held states: `e` is held for its
/// name, other names keep theirs, names stay unique.
proof fn lemma_updated_held(s: Seq<SignedNodeState>, e: SignedNodeState)
    requires
        unique_names(s),
    ensures
        unique_names(updated(s, e)),
        holds_name(updated(s, e), e.value.peer.name@),
        held(updated(s, e), e.value.peer.name@) == e,
{
    let m = e.value.peer.name@;
    let u = updated(s, e);
    let k = if holds_name(s, m) { index_of_name(s, m) } else { s.len() as int };
    if holds_name(s, m) {
        assert(s[k].value.peer.name@ == m);
    }
    assert(u[k] == e);
    assert forall|i: int, j: int|
        0 <= i < u.len() && 0 <= j < u.len() && i != j implies (#[trigger] u[i]).value.peer.name@ != (#[trigger] u[j]).value.peer.name@ by {
        if i != k && j != k {
            assert(u[i] == s[i] && u[j] == s[j]);
        } else if i == k {
            assert(u[j] == s[j]);
            if holds_name(s, m) {
                assert(s[j].value.peer.name@ != s[k].value.peer.name@);
            } else {
                assert(!(s[j].value.peer.name@ == m));
            }
        } else {
            assert(u[i] == s[i]);
            if holds_name(s, m) {
                assert(s[i].value.peer.name@ != s[k].value.peer.name@);
            } else {
                assert(!(s[i].value.peer.name@ == m));
            }
        }
    }
    lemma_index_unique(u, m, k);
}

proof fn lemma_updated_other(s: Seq<SignedNodeState>, e: SignedNodeState, n: Seq<u8>)
    requires
        unique_names(s),
        n != e.value.peer.name@,
        holds_name(s, n),
    ensures
        holds_name(updated(s, e), n),
        held(updated(s, e), n) == held(s, n),
{
    lemma_updated_held(s, e);
    let m = e.value.peer.name@;
    let u = updated(s, e);
    let k = if holds_name(s, m) { index_of_name(s, m) } else { s.len() as int };
    if holds_name(s, m) {
        assert(s[k].value.peer.name@ == m);
    }
    let i = index_of_name(s, n);
    assert(s[i].value.peer.name@ == n);
    assert(i != k);
    assert(u[i] == s[i]);
    lemma_index_unique(u, n, i);
}

/// An update that the held states already cover stays covered after any
/// further update.
proof fn lemma_covered_stays(s: Seq<SignedNodeState>, e: SignedNodeState, f: SignedNodeState)
    requires
        unique_names(s),
        !update_accepts(s, e),
    ensures
        !update_accepts(after_update(s, f), e),
        unique_names(after_update(s, f)),
{
    if update_accepts(s, f) {
        lemma_updated_held(s, f);
        let u = updated(s, f);
        let n = e.value.peer.name@;
        if n.len() == NAME_LEN {
            assert(holds_name(s, n));
            if n != f.value.peer.name@ {
                lemma_updated_other(s, f, n);
            } else {
                let h = held(s, n).value;
                assert(may_replace(h, f.value));
                assert(!may_replace(h, e.value));
                assert(held(u, n) == f);
                assert(!may_replace(f.value, e.value));
            }
        }
    }
}

proof fn lemma_accepted_changes(t: Seq<SignedNodeState>, e: SignedNodeState)
    requires
        unique_names(t),
        update_accepts(t, e),
    ensures
        updated(t, e) != t,
{
    let n = e.value.peer.name@;
    if holds_name(t, n) {
        let i = index_of_name(t, n);
        if updated(t, e) == t {
            assert(t.update(i, e)[i] == e);
            assert(t[i] == e);
            assert(!may_replace(e.value, e.value));
        }
    } else {
        assert(updated(t, e).len() != t.len());
    }
}

proof fn lemma_step_unique(t: Seq<SignedNodeState>, e: SignedNodeState, c: SectionChain, p: Seq<bool>)
    requires
        unique_names(t),
    ensures
        unique_names(merge_step(t, e, c, p)),
{
    if update_accepts(t, e) {
        lemma_updated_held(t, e);
    }
}

/// A member state covered by the roster stays covered after another step.
proof fn lemma_step_keeps_covered(t: Seq<SignedNodeState>, e: SignedNodeState, f: SignedNodeState, c: SectionChain, p: Seq<bool>)
    requires
        unique_names(t),
        merge_step(t, e, c, p) == t,
    ensures
        merge_step(merge_step(t, f, c, p), e, c, p) == merge_step(t, f, c, p),
{
    let t1 = merge_step(t, f, c, p);
    lemma_step_unique(t, f, c, p);
    if crate::section::admitted(e, c, p) {
        if update_accepts(t, e) {
            lemma_accepted_changes(t, e);
        }
        assert(!update_accepts(t, e));
        if crate::section::admitted(f, c, p) {
            lemma_covered_stays(t, e, f);
        }
    }
}

/// After merging `ms`, every state of `ms` is covered by the roster.
proof fn lemma_merged_covers(s: Seq<SignedNodeState>, ms: Seq<SignedNodeState>, c: SectionChain, p: Seq<bool>)
    requires
        unique_names(s),
    ensures
        unique_names(merged(s, ms, c, p)),
        forall|j: int| 0 <= j < ms.len() ==> merge_step(merged(s, ms, c, p), #[trigger] ms[j], c, p) == merged(s, ms, c, p),
    decreases ms.len(),
{
    if ms.len() > 0 {
        let d = ms.drop_last();
        lemma_merged_covers(s, d, c, p);
        let r0 = merged(s, d, c, p);
        let e = ms.last();
        lemma_step_unique(r0, e, c, p);
        let r = merge_step(r0, e, c, p);
        assert(r == merged(s, ms, c, p));
        assert forall|j: int| 0 <= j < ms.len() implies merge_step(r, #[trigger] ms[j], c, p) == r by {
            if j < ms.len() - 1 {
                assert(ms[j] == d[j]);
                lemma_step_keeps_covered(r0, ms[j], e, c, p);
            } else {
                if crate::section::admitted(e, c, p) {
                    crate::roster::lemma_update_idempotent(r0, e);
                }
            }
        }
    }
}

proof fn lemma_merge_covered(r: Seq<SignedNodeState>, ms: Seq<SignedNodeState>, c: SectionChain, p: Seq<bool>)
    requires
        forall|j: int| 0 <= j < ms.len() ==> merge_step(r, #[trigger] ms[j], c, p) == r,
    ensures
        merged(r, ms, c, p) == r,
    decreases ms.len(),
{
    if ms.len() > 0 {
        let d = ms.drop_last();
        assert forall|j: int| 0 <= j < d.len() implies merge_step(r, #[trigger] d[j], c, p) == r by {
            assert(d[j] == ms[j]);
        }
        lemma_merge_covered(r, d, c, p);
        assert(merge_step(r, ms[ms.len() - 1], c, p) == r);
    }
}

/// Merging the same member states a second time changes nothing: applying
/// an anti-entropy update's members twice is the same as applying them once.
pub proof fn lemma_merge_members_idempotent(s: Seq<SignedNodeState>, ms: Seq<SignedNodeState>, c: SectionChain, p: Seq<bool>)
    requires
        unique_names(s),
    ensures
        merged(merged(s, ms, c, p), ms, c, p) == merged(s, ms, c, p),
{
    lemma_merged_covers(s, ms, c, p);
    lemma_merge_covered(merged(s, ms, c, p), ms, c, p);
}

/// Every member of `s` is under `p`.
pub open spec fn all_under(s: Seq<SignedNodeState>, p: Seq<bool>) -> bool {
    forall|i: int| 0 <= i < s.len() ==> prefix_matches(p, #[trigger] s[i].value.peer.name@)
}

proof fn lemma_retained_all(s: Seq<SignedNodeState>, p: Seq<bool>)
    requires
        all_under(s, p),
    ensures
        crate::roster::retained(s, p) == s,
    decreases s.len(),
{
    if s.len() > 0 {
        let d = s.drop_last();
        assert forall|i: int| 0 <= i < d.len() implies prefix_matches(p, #[trigger] d[i].value.peer.name@) by {
            assert(d[i] == s[i]);
        }
        lemma_retained_all(d, p);
        assert(prefix_matches(p, s[s.len() - 1].value.peer.name@));
        assert(d.push(s.last()) =~= s);
    }
}

proof fn lemma_merged_under(s: Seq<SignedNodeState>, ms: Seq<SignedNodeState>, c: SectionChain, p: Seq<bool>)
    requires
        all_under(s, p),
    ensures
        all_under(merged(s, ms, c, p), p),
    decreases ms.len(),
{
    if ms.len() > 0 {
        lemma_merged_under(s, ms.drop_last(), c, p);
        let t = merged(s, ms.drop_last(), c, p);
        let e = ms.last();
        if crate::section::admitted(e, c, p) && update_accepts(t, e) {
            let u = updated(t, e);
            assert forall|i: int| 0 <= i < u.len() implies prefix_matches(p, #[trigger] u[i].value.peer.name@) by {
                if i < t.len() && u[i] == t[i] {
                } else {
                    assert(u[i] == e);
                }
            }
        }
    }
}

/// Applying the same anti-entropy members twice leaves the roster as the
/// first application left it (the members merged, then those outside the
/// prefix dropped), for a roster under the prefix.
pub proof fn lemma_ae_members_twice(s: Seq<SignedNodeState>, ms: Seq<SignedNodeState>, c: SectionChain, p: Seq<bool>)
    requires
        unique_names(s),
        all_under(s, p),
    ensures
        crate::roster::retained(merged(crate::roster::retained(merged(s, ms, c, p), p), ms, c, p), p)
            == crate::roster::retained(merged(s, ms, c, p), p),
{
    lemma_merged_under(s, ms, c, p);
    lemma_retained_all(merged(s, ms, c, p), p);
    lemma_merge_members_idempotent(s, ms, c, p);
    lemma_merged_covers(s, ms, c, p);
}

} // verus!
