//! The Elder duties towards clients' keys: the replica information that an
//! Elder derives from its section key share, kept current across Elder
//! changes and splits, and the section's joins flag.

use crate::bytes::copy_bytes;
use crate::chain::SectionChain;
use crate::crypto::{bls_public_key, bls_public_of, bls_secret_decodes};
use crate::error::Error;
use crate::name::Prefix;
use vstd::prelude::*;

verus! {

/// An Elder's key material and section knowledge.
pub struct ElderState {
    pub key_index: usize,
    pub public_key_set: Vec<u8>,
    pub secret_key_share: Vec<u8>,
    pub section_proof_chain: SectionChain,
    pub prefix: Prefix,
}

/// What a replica needs to sign for the section.
pub struct ReplicaInfo {
    /// The public key share of this Elder.
    pub id: Vec<u8>,
    pub key_index: usize,
    pub peer_replicas: Vec<u8>,
    pub section_proof_chain: SectionChain,
    /// Set for the first replica of a section, clear after Elder changes.
    pub initiating: bool,
}

/// What a duty asks the node to do next.
#[derive(Clone, Copy, Debug, PartialEq, Eq, Structural)]
pub enum NodeOperation {
    NoOp,
}

/// The key section of an Elder.
pub struct KeySection {
    pub elder_state: ElderState,
    pub replica_info: ReplicaInfo,
    pub joins_allowed: bool,
    pub full_nodes: Vec<Vec<u8>>,
}

/// The replica information derived from an Elder's state.
fn replica_info(state: &ElderState, initiating: bool) -> (r: Result<ReplicaInfo, Error>)
    requires
        state.section_proof_chain.wf(),
    ensures
        r is Ok <==> bls_secret_decodes(state.secret_key_share@),
        r matches Err(e) ==> e is InvalidPayload,
        r matches Ok(info) ==> {
            &&& info.id@ == bls_public_of(state.secret_key_share@)
            &&& info.key_index == state.key_index
            &&& info.peer_replicas@ == state.public_key_set@
            &&& info.section_proof_chain.same_as(&state.section_proof_chain)
            &&& info.initiating == initiating
        },
{
    let id = match bls_public_key(&state.secret_key_share) {
        Some(k) => k,
        None => return Err(Error::InvalidPayload),
    };
    Ok(ReplicaInfo {
        id,
        key_index: state.key_index,
        peer_replicas: copy_bytes(&state.public_key_set),
        section_proof_chain: state.section_proof_chain.duplicate(),
        initiating,
    })
}

impl KeySection {
    /// The key section of a new Elder, its replica initiating.
    pub fn new(elder_state: ElderState) -> (r: Result<KeySection, Error>)
        requires
            elder_state.section_proof_chain.wf(),
        ensures
            r is Ok <==> bls_secret_decodes(elder_state.secret_key_share@),
            r matches Ok(ks) ==> ks.replica_info.initiating && ks.replica_info.key_index == elder_state.key_index
                && ks.replica_info.id@ == bls_public_of(elder_state.secret_key_share@) && ks.joins_allowed
                && ks.full_nodes@.len() == 0,
    {
        let info = match replica_info(&elder_state, true) {
            Ok(i) => i,
            Err(e) => return Err(e),
        };
        Ok(KeySection { elder_state, replica_info: info, joins_allowed: true, full_nodes: Vec::new() })
    }

    /// Counts a node as full; a node already counted is not counted again.
    pub fn increase_full_node_count(&mut self, node_id: &Vec<u8>) -> (r: Result<(), Error>)
        ensures
            r is Ok,
            final(self).full_nodes@.len() >= old(self).full_nodes@.len(),
            final(self).full_nodes@.len() <= old(self).full_nodes@.len() + 1,
            exists|i: int| 0 <= i < final(self).full_nodes@.len() && #[trigger] final(self).full_nodes@[i]@ == node_id@,
    {
        let mut i: usize = 0;
        while i < self.full_nodes.len()
            invariant
                i <= self.full_nodes@.len(),
            decreases self.full_nodes@.len() - i,
        {
            if self.full_nodes[i] == *node_id {
                assert(self.full_nodes@[i as int]@ =~= node_id@);
                return Ok(());
            }
            i += 1;
        }
        self.full_nodes.push(copy_bytes(node_id));
        assert(self.full_nodes@[self.full_nodes@.len() - 1]@ == node_id@);
        Ok(())
    }

    /// Opens or closes the section to new nodes.
    pub fn set_node_join_flag(&mut self, joins_allowed: bool) -> (r: Result<NodeOperation, Error>)
        ensures
            r == Ok::<NodeOperation, Error>(NodeOperation::NoOp),
            final(self).joins_allowed == joins_allowed,
    {
        self.joins_allowed = joins_allowed;
        Ok(NodeOperation::NoOp)
    }

    /// Takes the new Elder state and refreshes the replica from it; the
    /// replica is no longer initiating. Nothing changes when the new key
    /// share does not decode.
    pub fn elders_changed(&mut self, state: ElderState) -> (r: Result<(), Error>)
        requires
            state.section_proof_chain.wf(),
        ensures
            r is Ok <==> bls_secret_decodes(state.secret_key_share@),
            r is Ok ==> !final(self).replica_info.initiating && final(self).replica_info.key_index == state.key_index
                && final(self).replica_info.id@ == bls_public_of(state.secret_key_share@)
                && final(self).replica_info.peer_replicas@ == state.public_key_set@,
            r is Err ==> final(self).replica_info == old(self).replica_info,
    {
        let info = match replica_info(&state, false) {
            Ok(i) => i,
            Err(e) => return Err(e),
        };
        self.replica_info = info;
        self.elder_state = state;
        Ok(())
    }

    /// After a split, our replicas answer for the new prefix.
    pub fn split_section(&mut self, prefix: Prefix) -> (r: Result<(), Error>)
        ensures
            r is Ok,
            final(self).elder_state.prefix@ == prefix@,
    {
        self.elder_state.prefix = prefix;
        Ok(())
    }
}

} // verus!
