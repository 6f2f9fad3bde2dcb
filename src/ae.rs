//! Anti-entropy: how a frame addressed with stale knowledge is answered,
//! and how a node absorbs the knowledge that such an answer carries.

use crate::chain::SectionChain;
use crate::error::Error;
use crate::name::prefix_matches;
use crate::roster::SectionPeers;
use crate::sap::SignedSap;
use crate::section::Section;
use vstd::prelude::*;

verus! {

/// What to do with an incoming frame.
#[derive(Debug)]
pub enum AeOutcome {
    /// The sender's knowledge is current: handle the frame.
    Accept,
    /// The sender used an outdated section key: send back our SAP and a
    /// chain that leads from its key (or from genesis) to ours.
    Retry { signed_sap: SignedSap, proof_chain: SectionChain },
    /// The frame is for another section: send back our SAP and full chain.
    Redirect { signed_sap: SignedSap, section_chain: SectionChain },
}

/// Every key of a well-formed chain descends from the root.
pub proof fn lemma_descends_from_root(c: SectionChain, i: int)
    requires
        c.wf(),
        0 <= i < c.keys@.len(),
    ensures
        c.descends(i, 0),
    decreases i,
{
    if i > 0 {
        assert(c.parent(i) < i);
        lemma_descends_from_root(c, c.parent(i));
    }
}

impl Section {
    /// Checks a frame's destination against our knowledge: a section key
    /// unknown to our chain gets a retry (always a reply, never a forward);
    /// then a name outside our prefix is redirected; then a known key other
    /// than ours gets a retry. A retry's proof chain starts at the frame's
    /// key when our last key descends from it, else at genesis. Otherwise
    /// the frame is accepted.
    pub fn validate_frame(&self, dst_name: &Vec<u8>, dst_section_key: &Vec<u8>) -> (r: AeOutcome)
        requires
            self.wf(),
        ensures
            !self.chain.has(dst_section_key@) ==> r is Retry,
            self.chain.has(dst_section_key@) && !prefix_matches(self.section_auth.value.prefix@, dst_name@) ==> r is Redirect,
            prefix_matches(self.section_auth.value.prefix@, dst_name@) && dst_section_key@ == self.section_auth.sig.public_key@
                ==> r is Accept,
            prefix_matches(self.section_auth.value.prefix@, dst_name@) && dst_section_key@ != self.section_auth.sig.public_key@
                ==> r is Retry,
            r matches AeOutcome::Retry { signed_sap, proof_chain } ==> {
                &&& signed_sap@ == self.section_auth@
                &&& proof_chain.wf()
                &&& proof_chain.last_spec() == self.chain.last_spec()
                &&& proof_chain.links_within(&self.chain)
                &&& (self.chain.valid() ==> proof_chain.valid())
                &&& (self.chain.last_descends_from(dst_section_key@) ==> proof_chain.root_spec() == dst_section_key@)
                &&& (!self.chain.last_descends_from(dst_section_key@) ==> proof_chain.root_spec() == self.genesis_key@)
            },
            r matches AeOutcome::Redirect { signed_sap, section_chain } ==> signed_sap@ == self.section_auth@
                && section_chain.same_as(&self.chain),
    {
        let known = self.chain.has_key(dst_section_key);
        if known && !self.section_auth.value.prefix.matches(dst_name) {
            return AeOutcome::Redirect { signed_sap: self.section_auth.duplicate(), section_chain: self.chain.duplicate() };
        }
        if *dst_section_key == self.section_auth.sig.public_key {
            assert(dst_section_key@ =~= self.section_auth.sig.public_key@);
            assert(known);
            return AeOutcome::Accept;
        }
        proof {
            if dst_section_key@ == self.section_auth.sig.public_key@ {
                assert(dst_section_key@ =~= self.section_auth.sig.public_key@);
            }
        }
        let proof_chain = match self.chain.proof_chain_from(dst_section_key) {
            Ok(c) => c,
            Err(_) => {
                let root = self.chain.root_key();
                proof {
                    lemma_descends_from_root(self.chain, self.chain.keys@.len() - 1);
                    assert(self.chain.key(0) == root@);
                }
                match self.chain.proof_chain_from(root) {
                    Ok(c) => c,
                    Err(_) => {
                        proof {
                            assert(false);
                        }
                        self.chain.duplicate()
                    },
                }
            },
        };
        AeOutcome::Retry { signed_sap: self.section_auth.duplicate(), proof_chain }
    }

    /// Absorbs an anti-entropy update: merges the proof chain, adopts the
    /// SAP when its key is then our last key, and merges the members.
    pub fn handle_ae_update(&mut self, signed_sap: &SignedSap, proof_chain: &SectionChain, members: Option<SectionPeers>) -> (r: Result<(), Error>)
        requires
            old(self).wf(),
            proof_chain.wf(),
            signed_sap.value.prefix.wf(),
        ensures
            final(self).wf(),
            r is Ok <==> (old(self).chain.root_spec() == proof_chain.root_spec() && proof_chain.valid()),
            r is Err ==> *final(self) == *old(self),
            old(self).chain.is_prefix_of(&final(self).chain),
            old(self).chain.valid() ==> final(self).chain.valid(),
            r is Ok ==> forall|k: Seq<u8>| #[trigger] final(self).chain.has(k) <==> (old(self).chain.has(k) || proof_chain.has(k)),
            r is Ok && signed_sap.sig.public_key@ == final(self).chain.last_spec() ==> final(self).section_auth@ == signed_sap@
                && final(self).coherent(),
            r is Ok ==> final(self).section_peers.all_match(final(self).section_auth.value.prefix@),
            (forall|k: Seq<u8>| #[trigger] proof_chain.has(k) ==> old(self).chain.has(k)) ==> final(self).chain == old(self).chain,
            old(self).section_auth@ == signed_sap@ ==> final(self).section_auth@ == old(self).section_auth@,
            !(r is Ok && signed_sap.sig.public_key@ == final(self).chain.last_spec()) ==> final(self).section_auth
                == old(self).section_auth,
            r is Ok ==> final(self).section_peers.members@ == crate::roster::retained(
                match members {
                    Some(p) => crate::section::merged(
                        old(self).section_peers.members@,
                        p.members@,
                        final(self).chain,
                        final(self).section_auth.value.prefix@,
                    ),
                    None => old(self).section_peers.members@,
                },
                final(self).section_auth.value.prefix@,
            ),
    {
        match self.merge_chain(signed_sap, proof_chain) {
            Ok(()) => {},
            Err(e) => return Err(e),
        }
        self.merge_members(members);
        Ok(())
    }
}

} // verus!
