//! A node's handlers: each takes the node's state and an event (a message,
//! an agreement, a command) and returns the commands that follow from it.
//! Sending, timers and randomness are left to the caller, which runs the
//! work-list and performs the `SendMsg` commands.

use crate::aggregator::{quorum_of_shares, share_ok, SigShare, SignatureAggregator};
use crate::bytes::copy_bytes;
use crate::chain::SectionChain;
use crate::crypto::{bls_set_key, bls_sig_valid, bls_sign, bls_verify};
use crate::dkg::{DkgSessionId, DkgVoter};
use crate::dkg_engine::DkgReaction;
use crate::error::Error;
use crate::name::prefix_matches;
use crate::roster::SectionPeers;
use crate::sap::{peers_view, PeerView, node_state_bytes, KeyedSig, MembershipState, NodeState, Peer, SignedNodeState, SignedSap};
use crate::section::{merge_step, Section, SectionKeyShare};
use crate::wire::{wire_bytes, AuthKind, WireMsg, WireView};
use vstd::prelude::*;

verus! {

/// Storage level at which a node counts as full.
pub const MIN_LEVEL_WHEN_FULL: u8 = 9;

/// Messages between nodes.
pub enum NodeMsg {
    /// A vote that a member goes offline, with our share of the section's signature.
    ProposeNodeOff { proposal: NodeState, sig_share: SigShare },
    /// Knowledge for a peer that is behind.
    AntiEntropyUpdate { signed_sap: SignedSap, proof_chain: SectionChain, members: Option<SectionPeers> },
    /// A frame sent with an outdated key, bounced back with what updates it.
    AntiEntropyRetry { signed_sap: SignedSap, proof_chain: SectionChain, bounced: Vec<u8> },
    /// A frame sent to the wrong section, bounced back with that section's knowledge.
    AntiEntropyRedirect { signed_sap: SignedSap, section_chain: SectionChain, bounced: Vec<u8> },
    /// A probe for silent divergence.
    AntiEntropyProbe,
    /// Asks the Elders to test connectivity to a node.
    StartConnectivityTest(Vec<u8>),
    /// Starts a DKG session.
    DkgStart(DkgSessionId),
    /// A participant's signed ephemeral key.
    DkgEphemeralPubKey { session_id: DkgSessionId, key: Vec<u8>, sig: Vec<u8> },
    /// A vote of the DKG vote phase.
    DkgVote { session_id: DkgSessionId, vote: sn_sdkg::DkgSignedVote },
    /// An error reported by a peer.
    NodeMsgError,
    /// A node reports its storage level.
    RecordStorageLevel { node_name: Vec<u8>, level: u8 },
    /// A node could not store data.
    CouldNotStoreData { node_name: Vec<u8>, full: bool },
}

/// What a handler asks for next.
pub enum Cmd {
    /// Send a message to peers.
    SendMsg { msg: NodeMsg, recipients: Vec<Peer> },
    /// Send encoded frames to peers.
    SendBytes { bytes: Vec<u8>, recipients: Vec<Peer> },
    /// Handle a frame addressed to ourselves.
    HandleMsg { sender: Peer, wire_msg: WireMsg },
    /// An offline vote reached agreement.
    HandleNodeOffAgreement { proposal: NodeState, sig: KeyedSig },
    /// A send to a peer failed.
    HandleFailedSendToNode { peer: Peer },
    /// Note an issue with a node.
    TrackNodeIssue { name: Vec<u8> },
    /// Test connectivity to a node.
    TestConnectivity(Vec<u8>),
    /// Generate an ephemeral key for a DKG session.
    GenerateDkgKey(DkgSessionId),
    /// A DKG session ended: the new key set and our share of its secret.
    DkgOutcome { session_id: DkgSessionId, public_key_set: Vec<u8>, secret_key_share: Vec<u8> },
    /// Record our storage level.
    SetStorageLevel(u8),
    /// Vote the named members offline.
    ProposeVoteNodesOffline(Vec<Vec<u8>>),
    /// Queue data (by address) for replication to `recipient`.
    EnqueueDataForReplication { recipient: Vec<u8>, data_batch: Vec<Vec<u8>> },
}

/// Data waiting to be replicated, with the peers it goes to.
pub struct PendingReplication {
    pub data: Vec<u8>,
    pub peers: Vec<Vec<u8>>,
}

/// `pending` queues `data` for `peer`.
pub open spec fn queued_for(pending: Seq<PendingReplication>, data: Seq<u8>, peer: Seq<u8>) -> bool {
    exists|i: int|
        0 <= i < pending.len() && #[trigger] pending[i].data@ == data && crate::roster::name_set(pending[i].peers@).contains(peer)
}

/// How a received message is authorised.
pub enum MsgAuthority {
    /// Signed by a single node with its ed25519 identity (its name is its
    /// public key).
    Node(KeyedSig),
    /// Signed with an Elder's share of the section key.
    BlsShare(SigShare),
    /// Signed by the section.
    Section(KeyedSig),
}

/// One node's state.
pub struct MyNode {
    pub name: Vec<u8>,
    pub addr: Vec<u8>,
    pub age: u8,
    pub keypair: Vec<u8>,
    pub section: Section,
    pub key_share: Option<SectionKeyShare>,
    pub proposal_aggregator: SignatureAggregator,
    pub message_aggregator: SignatureAggregator,
    pub dkg_voter: DkgVoter,
    pub joins_allowed: bool,
    pub storage_level: u8,
    pub node_issues: Vec<Vec<u8>>,
    pub full_nodes: Vec<Vec<u8>>,
    pub pending_replication: Vec<PendingReplication>,
}

impl MyNode {
    pub open spec fn wf(&self) -> bool {
        &&& self.section.wf()
        &&& self.proposal_aggregator.wf()
        &&& self.message_aggregator.wf()
        &&& self.dkg_voter.wf()
    }

    /// A node around the given section knowledge.
    pub fn new(name: Vec<u8>, addr: Vec<u8>, age: u8, keypair: Vec<u8>, section: Section, key_share: Option<SectionKeyShare>) -> (r: MyNode)
        requires
            section.wf(),
        ensures
            r.wf(),
            r.name@ == name@,
            r.section == section,
            r.joins_allowed,
    {
        MyNode {
            name,
            addr,
            age,
            keypair,
            section,
            key_share,
            proposal_aggregator: SignatureAggregator::new(),
            message_aggregator: SignatureAggregator::new(),
            dkg_voter: DkgVoter::new(),
            joins_allowed: true,
            storage_level: 0,
            node_issues: Vec::new(),
            full_nodes: Vec::new(),
            pending_replication: Vec::new(),
        }
    }

    /// Whether we are one of our section's Elders.
    pub fn is_elder(&self) -> (r: bool)
        ensures
            r == self.section.section_auth.value.elder_names().contains(self.name@),
    {
        self.section.is_elder(&self.name)
    }

    /// Ourselves as a peer.
    pub fn peer(&self) -> (r: Peer)
        ensures
            r.name@ == self.name@,
            r.addr@ == self.addr@,
            r.age == self.age,
    {
        Peer { name: copy_bytes(&self.name), addr: copy_bytes(&self.addr), age: self.age }
    }

    /// Takes our share of a new section key: participant `index` of the key
    /// set `public_key_set`.
    pub fn adopt_key_share(&mut self, public_key_set: Vec<u8>, index: usize, secret_key_share: Vec<u8>)
        requires
            old(self).wf(),
        ensures
            final(self).wf(),
            final(self).key_share matches Some(ks) && ks.public_key_set@ == public_key_set@ && ks.index == index
                && ks.secret_key_share@ == secret_key_share@,
            final(self).section == old(self).section,
    {
        self.key_share = Some(SectionKeyShare { public_key_set, index, secret_key_share });
    }

    /// Notes an issue with the node `name`.
    pub fn track_node_issue(&mut self, name: &Vec<u8>)
        ensures
            final(self).node_issues@.len() == old(self).node_issues@.len() + 1,
            final(self).node_issues@.last()@ == name@,
            final(self).section == old(self).section,
            final(self).proposal_aggregator == old(self).proposal_aggregator,
            final(self).message_aggregator == old(self).message_aggregator,
            final(self).dkg_voter == old(self).dkg_voter,
            final(self).name == old(self).name,
            final(self).key_share == old(self).key_share,
            final(self).node_issues@.drop_last() == old(self).node_issues@,
    {
        self.node_issues.push(copy_bytes(name));
        assert(self.node_issues@.drop_last() =~= old(self).node_issues@);
    }
}

impl MyNode {
    /// Handles a vote that `proposal` goes offline, with `sender`'s share of
    /// the signature. Ignored (no command) when the sender is outside our
    /// prefix, when the share's key set is not of our chain, or when the
    /// share does not aggregate yet or is invalid; once the shares aggregate,
    /// the agreement is returned as a command.
    pub fn handle_section_state_proposal(&mut self, proposal: NodeState, sig_share: SigShare, sender: &Peer) -> (r: Result<Vec<Cmd>, Error>)
        requires
            old(self).wf(),
        ensures
            final(self).wf(),
            final(self).section == old(self).section,
            final(self).message_aggregator == old(self).message_aggregator,
            final(self).dkg_voter == old(self).dkg_voter,
            final(self).name == old(self).name,
            final(self).key_share == old(self).key_share,
            final(self).node_issues == old(self).node_issues,
            final(self).full_nodes == old(self).full_nodes,
            final(self).pending_replication == old(self).pending_replication,
            final(self).joins_allowed == old(self).joins_allowed,
            final(self).storage_level == old(self).storage_level,
            final(self).addr == old(self).addr,
            final(self).age == old(self).age,
            final(self).keypair == old(self).keypair,
            r matches Ok(c) && proposal_outcome(
                old(self).section,
                old(self).proposal_aggregator,
                final(self).proposal_aggregator,
                proposal,
                sig_share,
                sender.name@,
                c@,
            ),
    {
        if !self.section.section_auth.value.prefix.matches(&sender.name) {
            return Ok(Vec::new());
        }
        if sig_share.public_key_set.len() < crate::crypto::PK_LEN {
            return Ok(Vec::new());
        }
        let key = match bls_set_key(&sig_share.public_key_set) {
            Some(k) => k,
            None => return Ok(Vec::new()),
        };
        if !self.section.chain.has_key(&key) {
            return Ok(Vec::new());
        }
        let bytes = proposal.to_bytes();
        match self.proposal_aggregator.try_aggregate(&bytes, sig_share) {
            Ok(Some(sig)) => Ok(vec![Cmd::HandleNodeOffAgreement { proposal, sig }]),
            Ok(None) => Ok(Vec::new()),
            Err(_) => Ok(Vec::new()),
        }
    }

    /// `handle_section_state_proposal` for a vote we cast ourselves.
    fn handle_own_proposal(&mut self, proposal: NodeState, sig_share: SigShare, sender: &Peer) -> (r: Result<Vec<Cmd>, Error>)
        requires
            old(self).wf(),
        ensures
            final(self).wf(),
            final(self).section == old(self).section,
            final(self).name == old(self).name,
            final(self).key_share == old(self).key_share,
            final(self).node_issues == old(self).node_issues,
            r matches Ok(c) && proposal_outcome(
                old(self).section,
                old(self).proposal_aggregator,
                final(self).proposal_aggregator,
                proposal,
                sig_share,
                sender.name@,
                c@,
            ),
    {
        self.handle_section_state_proposal(proposal, sig_share, sender)
    }

    /// Votes `proposal` offline to `elders`; see `send_node_off_proposal`.
    fn vote_offline(&mut self, elders: Vec<Peer>, proposal: NodeState) -> (r: Result<Vec<Cmd>, Error>)
        requires
            old(self).wf(),
        ensures
            final(self).wf(),
            final(self).section == old(self).section,
            final(self).name == old(self).name,
            final(self).key_share == old(self).key_share,
            old(self).key_share matches Some(ks) ==> (crate::crypto::bls_secret_decodes(ks.secret_key_share@) ==> r is Ok),
            r matches Ok(c) ==> c@.len() >= 1 && (proposal.state is Left ==> proposes_offline(c@[0], proposal.peer.name@)),
    {
        self.send_node_off_proposal(elders, proposal)
    }

    /// Applies an agreed offline vote: the section's signature must verify
    /// over the member state, which then updates the roster as a trusted
    /// member state would.
    pub fn handle_section_decision_agreement(&mut self, proposal: NodeState, sig: KeyedSig) -> (r: Result<Vec<Cmd>, Error>)
        requires
            old(self).wf(),
        ensures
            final(self).wf(),
            r is Ok <==> bls_sig_valid(sig.public_key@, node_state_bytes(proposal), sig.signature@),
            r matches Err(e) ==> e is InvalidSignature && *final(self) == *old(self),
            r matches Ok(c) ==> c@.len() == 0,
            r is Ok ==> final(self).section.section_peers.members@ == merge_step(
                old(self).section.section_peers.members@,
                SignedNodeState { value: proposal, sig },
                old(self).section.chain,
                old(self).section.section_auth.value.prefix@,
            ),
            final(self).section.chain == old(self).section.chain,
            final(self).section.section_auth == old(self).section.section_auth,
    {
        let bytes = proposal.to_bytes();
        if !bls_verify(&sig.public_key, &bytes, &sig.signature) {
            return Err(Error::InvalidSignature);
        }
        let _ = self.section.update_member(SignedNodeState { value: proposal, sig });
        Ok(Vec::new())
    }

    /// Votes that `proposal` goes offline: signs it with our key share, sends
    /// the vote to the other recipients (noting an issue with each until they
    /// vote), and handles it ourselves when we are among the recipients.
    pub fn send_node_off_proposal(&mut self, recipients: Vec<Peer>, proposal: NodeState) -> (r: Result<Vec<Cmd>, Error>)
        requires
            old(self).wf(),
        ensures
            final(self).wf(),
            old(self).key_share is None ==> r matches Err(Error::InvalidState),
            old(self).key_share matches Some(ks) ==> (!crate::crypto::bls_secret_decodes(ks.secret_key_share@) ==> r matches Err(
                Error::InvalidSignatureShare,
            )),
            old(self).key_share matches Some(ks) ==> (crate::crypto::bls_secret_decodes(ks.secret_key_share@) ==> r is Ok),
            r matches Ok(c) ==> (c@[0] matches Cmd::SendMsg { msg: NodeMsg::ProposeNodeOff { proposal: p, sig_share: _ }, recipients: _ }
                && (p.state is Left <==> proposal.state is Left)),
            r matches Ok(c) ==> (c@[0] matches Cmd::SendMsg { msg: _, recipients: rs } && peers_view(rs@) == others_of(
                peers_view(recipients@),
                old(self).name@,
            )),
            final(self).section == old(self).section,
            final(self).name == old(self).name,
            final(self).key_share == old(self).key_share,
            ({
                let others = others_of(peers_view(recipients@), old(self).name@);
                let present = exists|i: int| 0 <= i < recipients@.len() && (#[trigger] recipients@[i]).name@ == old(self).name@;
                &&& (r matches Ok(c) ==> (!present ==> c@.len() == 1))
                &&& (r matches Ok(c) ==> (present ==> (old(self).key_share matches Some(ks) && exists|sh: SigShare|
                    sh.public_key_set@ == ks.public_key_set@ && sh.index == ks.index && sh.signature_share@
                        == crate::crypto::bls_signature_of(ks.secret_key_share@, node_state_bytes(proposal))
                        && #[trigger] proposal_outcome(
                        old(self).section,
                        old(self).proposal_aggregator,
                        final(self).proposal_aggregator,
                        proposal,
                        sh,
                        old(self).name@,
                        c@.subrange(1, c@.len() as int),
                    ))))
                &&& (r is Ok ==> final(self).node_issues@.len() == old(self).node_issues@.len() + others.len()
                    && final(self).node_issues@.subrange(0, old(self).node_issues@.len() as int) == old(self).node_issues@
                    && forall|j: int|
                    0 <= j < others.len() ==> #[trigger] final(self).node_issues@[old(self).node_issues@.len() + j]@
                        == others[j].name)
            }),
            r matches Ok(c) ==> c@.len() >= 1 && (c@[0] matches Cmd::SendMsg {
                msg: NodeMsg::ProposeNodeOff { proposal: p, sig_share },
                recipients,
            } && p.peer@ == proposal.peer@ && node_state_bytes(p) == node_state_bytes(proposal) && (old(
                self,
            ).key_share matches Some(ks) && sig_share.signature_share@ == crate::crypto::bls_signature_of(
                ks.secret_key_share@,
                node_state_bytes(proposal),
            ) && sig_share.public_key_set@ == ks.public_key_set@ && sig_share.index == ks.index) && (forall|i: int|
                0 <= i < recipients@.len() ==> (#[trigger] recipients@[i]).name@ != old(self).name@)),
    {
        let share = match &self.key_share {
            Some(ks) => {
                let bytes = proposal.to_bytes();
                match bls_sign(&ks.secret_key_share, &bytes) {
                    Some(s) => SigShare {
                        public_key_set: copy_bytes(&ks.public_key_set),
                        index: ks.index,
                        signature_share: s,
                    },
                    None => return Err(Error::InvalidSignatureShare),
                }
            },
            None => return Err(Error::InvalidState),
        };
        let (others, me) = split_nodes_and_self(recipients, &self.name);
        let ghost n0 = old(self).node_issues@.len();
        let mut i: usize = 0;
        while i < others.len()
            invariant
                self.wf(),
                i <= others@.len(),
                self.name == old(self).name,
                self.key_share == old(self).key_share,
                self.section == old(self).section,
                self.proposal_aggregator == old(self).proposal_aggregator,
                n0 == old(self).node_issues@.len(),
                self.node_issues@.len() == n0 + i,
                self.node_issues@.subrange(0, n0 as int) == old(self).node_issues@,
                forall|j: int| 0 <= j < i ==> #[trigger] self.node_issues@[n0 + j]@ == others@[j].name@,
            decreases others@.len() - i,
        {
            let ghost before = self.node_issues@;
            self.track_node_issue(&others[i].name);
            proof {
                assert(self.node_issues@.subrange(0, n0 as int) =~= before.subrange(0, n0 as int));
                assert forall|j: int| 0 <= j < i + 1 implies #[trigger] self.node_issues@[n0 + j]@ == others@[j].name@ by {
                    if j < i {
                        assert(self.node_issues@[n0 + j] == before[n0 + j]);
                    }
                }
            }
            i += 1;
        }
        proof {
            assert forall|j: int| 0 <= j < others@.len() implies peers_view(others@)[j].name == others@[j].name@ by {}
        }
        let msg = NodeMsg::ProposeNodeOff { proposal: proposal.duplicate(), sig_share: share.duplicate() };
        let mut cmds = vec![Cmd::SendMsg { msg, recipients: others }];
        if let Some(me) = me {
            let ghost sh = share;
            let ghost agg0 = self.proposal_aggregator;
            match self.handle_own_proposal(proposal, share, &me) {
                Ok(more) => {
                    let mut more = more;
                    let ghost m = more@;
                    cmds.append(&mut more);
                    assert(cmds@.subrange(1, cmds@.len() as int) =~= m);
                    assert(proposal_outcome(
                        old(self).section,
                        old(self).proposal_aggregator,
                        self.proposal_aggregator,
                        proposal,
                        sh,
                        old(self).name@,
                        cmds@.subrange(1, cmds@.len() as int),
                    ));
                },
                Err(e) => return Err(e),
            }
        }
        Ok(cmds)
    }

    /// Routes a frame to `recipients`: one send to the others, readdressed to
    /// the first one's section key, and one local handling when we are a
    /// recipient, which only a frame signed with a key share (to be
    /// aggregated) may be.
    pub fn send_messages_to_all_nodes_or_directly_handle_for_accumulation(&self, recipients: Vec<Peer>, wire_msg: WireMsg) -> (r: Result<Vec<Cmd>, Error>)
        requires
            self.wf(),
        ensures
            ({
                let present = exists|i: int| 0 <= i < recipients@.len() && (#[trigger] recipients@[i]).name@ == self.name@;
                let o = others_of(peers_view(recipients@), self.name@);
                let key = self.section.section_auth.sig.public_key@;
                &&& (present && wire_msg.auth != AuthKind::NodeBlsShare ==> r matches Err(Error::SendOrHandlingNormalMsg))
                &&& (!(present && wire_msg.auth != AuthKind::NodeBlsShare) ==> (r matches Ok(c) && {
                    &&& c@.len() == (if o.len() > 0 { 1int } else { 0int }) + (if present { 1int } else { 0int })
                    &&& (o.len() > 0 ==> (c@[0] matches Cmd::SendBytes { bytes, recipients: rs } && peers_view(rs@) == o
                        && bytes@ == wire_bytes(WireView { dst_name: o[0].name, dst_section_key: key, ..wire_msg@ })))
                    &&& (present ==> (c@[c@.len() - 1] matches Cmd::HandleMsg { sender, wire_msg: w } && sender.name@
                        == self.name@ && sender.addr@ == self.addr@ && w@ == (WireView {
                        dst_name: self.name@,
                        dst_section_key: key,
                        ..wire_msg@
                    })))
                }))
            }),
    {
        let (others, me) = split_nodes_and_self(recipients, &self.name);
        if me.is_some() && wire_msg.auth != AuthKind::NodeBlsShare {
            return Err(Error::SendOrHandlingNormalMsg);
        }
        let our_key = &self.section.section_auth.sig.public_key;
        let mut cmds: Vec<Cmd> = Vec::new();
        if others.len() > 0 {
            assert(peers_view(others@)[0] == others@[0]@);
            let readdressed = wire_msg.with_dst(&others[0].name, our_key);
            cmds.push(Cmd::SendBytes { bytes: readdressed.serialize(), recipients: others });
        }
        if me.is_some() {
            let local = wire_msg.with_dst(&self.name, our_key);
            cmds.push(Cmd::HandleMsg { sender: self.peer(), wire_msg: local });
        }
        Ok(cmds)
    }

    /// Aggregates a message signed with a key share. Returns whether to stop
    /// handling it (not enough shares yet); once aggregated, the authority
    /// becomes the section's signature. Other authorities pass unchanged.
    pub fn aggregate_msg_and_stop(&mut self, authority: &mut MsgAuthority, payload: &Vec<u8>) -> (r: Result<bool, Error>)
        requires
            old(self).wf(),
        ensures
            final(self).wf(),
            !(*old(authority) is BlsShare) ==> r == Ok::<bool, Error>(false) && *final(authority) == *old(authority)
                && *final(self) == *old(self),
            r matches Err(e) ==> e is InvalidSignatureShare,
            *final(self) == (MyNode { message_aggregator: final(self).message_aggregator, ..*old(self) }),
            *old(authority) matches MsgAuthority::BlsShare(sh) ==> ({
                let agg = old(self).message_aggregator;
                let after = agg.indices_after(payload@, sh);
                &&& (share_ok(sh, payload@) && after.len() > crate::crypto::bls_set_threshold(sh.public_key_set@) && bls_sig_valid(
                    crate::crypto::bls_set_public_key(sh.public_key_set@),
                    payload@,
                    crate::crypto::bls_combined(sh.public_key_set@, after, agg.shares_after(payload@, sh)),
                ) ==> r == Ok::<bool, Error>(false))
                &&& (!share_ok(sh, payload@) ==> (r matches Err(Error::InvalidSignatureShare)) && *final(self) == *old(self))
                &&& (share_ok(sh, payload@) && agg.indices_after(payload@, sh).len() <= crate::crypto::bls_set_threshold(
                    sh.public_key_set@,
                ) ==> r == Ok::<bool, Error>(true) && final(self).message_aggregator.held_indices(payload@, sh.public_key_set@)
                    == agg.indices_after(payload@, sh))
                &&& (r == Ok::<bool, Error>(false) ==> (*final(authority) matches MsgAuthority::Section(sig)
                    && sig.public_key@ == crate::crypto::bls_set_public_key(sh.public_key_set@) && bls_sig_valid(
                    sig.public_key@,
                    payload@,
                    sig.signature@,
                ) && quorum_of_shares(sh.public_key_set@, payload@, agg.indices_after(payload@, sh), agg.shares_after(payload@, sh))))
            }),
            final(self).section == old(self).section,
            final(self).proposal_aggregator == old(self).proposal_aggregator,
            final(self).dkg_voter == old(self).dkg_voter,
    {
        let share = match authority {
            MsgAuthority::BlsShare(share) => share.duplicate(),
            _ => return Ok(false),
        };
        match self.message_aggregator.try_aggregate(payload, share) {
            Ok(Some(sig)) => {
                *authority = MsgAuthority::Section(sig);
                Ok(false)
            },
            Ok(None) => Ok(true),
            Err(_) => Err(Error::InvalidSignatureShare),
        }
    }

    /// Records a node's storage level; a node reaching the full level opens
    /// joins so that a new node can take its place.
    pub fn record_storage_level(&mut self, node_name: &Vec<u8>, level: u8) -> (r: bool)
        ensures
            storage_effect(*old(self), *final(self), node_name@, level, r),
    {
        if level < MIN_LEVEL_WHEN_FULL || crate::roster::contains_name(&self.full_nodes, node_name) {
            return false;
        }
        let ghost prev = self.full_nodes@;
        self.full_nodes.push(copy_bytes(node_name));
        assert(self.full_nodes@.drop_last() =~= prev);
        if level == MIN_LEVEL_WHEN_FULL {
            self.joins_allowed = true;
        }
        true
    }
}

impl MyNode {
    /// Starts our part in a DKG session with the fresh ephemeral secret
    /// `secret`: our signed ephemeral key goes to every participant. Sessions
    /// that we are not part of are ignored.
    pub fn handle_dkg_start(&mut self, session_id: DkgSessionId, secret: Vec<u8>) -> (r: Result<Vec<Cmd>, Error>)
        requires
            old(self).wf(),
        ensures
            final(self).wf(),
            !session_id.names().contains(old(self).name@) ==> (r matches Ok(c) && c@.len() == 0) && *final(self) == *old(self),
            session_id.names().contains(old(self).name@) && !old(self).dkg_voter.has_keys(session_id.hash_spec())
                && crate::crypto::bls_secret_decodes(secret@) && crate::crypto::ed25519_keypair_decodes(old(self).keypair@)
                ==> r is Ok,
            session_id.names().contains(old(self).name@) ==> (r matches Ok(c) ==> c@.len() == 1 && (c@[0] matches Cmd::SendMsg {
                msg: NodeMsg::DkgEphemeralPubKey { session_id: s, key, sig },
                recipients,
            } && s == session_id && peers_view(recipients@) == peers_view(session_id.elders@) && (!old(
                self,
            ).dkg_voter.has_keys(session_id.hash_spec()) ==> key@ == crate::crypto::bls_public_of(secret@) && sig@
                == crate::crypto::ed25519_signature_of(old(self).keypair@, key@)))),
            final(self).section == old(self).section,
    {
        if session_id.elder_index(&self.name).is_none() {
            return Ok(Vec::new());
        }
        let h = session_id.hash();
        let (key, sig) = match self.dkg_voter.gen_ephemeral_key(&h, &self.name, &self.keypair, secret) {
            Ok(ks) => ks,
            Err(e) => return Err(e),
        };
        let recipients = crate::sap::copy_peers(&session_id.elders);
        Ok(vec![Cmd::SendMsg { msg: NodeMsg::DkgEphemeralPubKey { session_id, key, sig }, recipients }])
    }

    /// Handles a message that passed the signature checks.
    pub fn handle_valid_msg(&mut self, msg: NodeMsg, sender: Peer, now: u64) -> (r: Result<Vec<Cmd>, Error>)
        requires
            old(self).wf(),
        ensures
            final(self).wf(),
            valid_msg_outcome(*old(self), *final(self), msg, sender, r),
    {
        match msg {
            NodeMsg::ProposeNodeOff { proposal, sig_share } => self.handle_section_state_proposal(proposal, sig_share, &sender),
            NodeMsg::AntiEntropyUpdate { signed_sap, proof_chain, members } => {
                if !proof_chain.wf_check() || signed_sap.value.prefix.bit_count() > crate::name::NAME_BITS {
                    return Err(Error::UntrustedProofChain);
                }
                match self.section.handle_ae_update(&signed_sap, &proof_chain, members) {
                    Ok(()) => Ok(Vec::new()),
                    Err(e) => Err(e),
                }
            },
            NodeMsg::AntiEntropyRetry { signed_sap, proof_chain, bounced } => {
                if !proof_chain.wf_check() || signed_sap.value.prefix.bit_count() > crate::name::NAME_BITS {
                    return Err(Error::UntrustedProofChain);
                }
                match self.section.handle_ae_update(&signed_sap, &proof_chain, None) {
                    Ok(()) => {},
                    Err(e) => return Err(e),
                }
                self.resend_bounced(&bounced, &signed_sap)
            },
            NodeMsg::AntiEntropyRedirect { signed_sap, section_chain: _, bounced } => {
                // knowledge of other sections is not kept: the frame goes to their Elders
                self.resend_bounced(&bounced, &signed_sap)
            },
            NodeMsg::AntiEntropyProbe => Ok(Vec::new()),
            NodeMsg::StartConnectivityTest(name) => {
                if !self.is_elder() {
                    return Ok(Vec::new());
                }
                Ok(vec![Cmd::TestConnectivity(name)])
            },
            NodeMsg::DkgStart(session_id) => {
                if session_id.elder_index(&self.name).is_none() {
                    return Ok(Vec::new());
                }
                Ok(vec![Cmd::GenerateDkgKey(session_id)])
            },
            NodeMsg::DkgEphemeralPubKey { session_id, key, sig } => {
                let index = match session_id.elder_index(&self.name) {
                    Some(i) => i,
                    None => return Ok(Vec::new()),
                };
                match self.dkg_voter.try_init_dkg(&session_id, index, &key, &sig, &sender.name, now) {
                    Ok(Some((vote, _keys))) => {
                        let recipients = crate::sap::copy_peers(&session_id.elders);
                        Ok(vec![Cmd::SendMsg { msg: NodeMsg::DkgVote { session_id, vote }, recipients }])
                    },
                    Ok(None) => Ok(Vec::new()),
                    Err(e) => Err(e),
                }
            },
            NodeMsg::DkgVote { session_id, vote } => {
                let responses = match self.dkg_voter.handle_dkg_vote(&session_id, vote) {
                    Ok(r) => r,
                    Err(e) => return Err(e),
                };
                Ok(dkg_reactions(&session_id, classify_all(responses)))
            },
            NodeMsg::NodeMsgError => Ok(Vec::new()),
            NodeMsg::RecordStorageLevel { node_name, level } => {
                let b = self.record_storage_level(&node_name, level);
                assert(storage_effect(*old(self), *self, node_name@, level, b));
                Ok(Vec::new())
            },
            NodeMsg::CouldNotStoreData { node_name, full } => {
                if self.is_elder() && full {
                    let b = self.record_storage_level(&node_name, MIN_LEVEL_WHEN_FULL);
                    assert(storage_effect(*old(self), *self, node_name@, MIN_LEVEL_WHEN_FULL, b));
                }
                Ok(Vec::new())
            },
        }
    }

    /// Queues each data address of `batch` for replication to `recipient`,
    /// adding the recipient to an existing entry for that address.
    pub fn enqueue_for_replication(&mut self, recipient: &Vec<u8>, batch: &Vec<Vec<u8>>)
        requires
            old(self).wf(),
        ensures
            final(self).wf(),
            forall|j: int| 0 <= j < batch@.len() ==> queued_for(final(self).pending_replication@, #[trigger] batch@[j]@, recipient@),
            forall|d: Seq<u8>, p: Seq<u8>| #[trigger] queued_for(final(self).pending_replication@, d, p) ==> queued_for(
                old(self).pending_replication@,
                d,
                p,
            ) || (p == recipient@ && exists|q: int| 0 <= q < batch@.len() && batch@[q]@ == d),
            forall|d: Seq<u8>, p: Seq<u8>| queued_for(old(self).pending_replication@, d, p) ==> #[trigger] queued_for(
                final(self).pending_replication@,
                d,
                p,
            ),
            final(self).section == old(self).section,
            final(self).proposal_aggregator == old(self).proposal_aggregator,
            final(self).message_aggregator == old(self).message_aggregator,
            final(self).dkg_voter == old(self).dkg_voter,
    {
        let mut j: usize = 0;
        while j < batch.len()
            invariant
                self.wf(),
                j <= batch@.len(),
                forall|q: int| 0 <= q < j ==> queued_for(self.pending_replication@, #[trigger] batch@[q]@, recipient@),
                forall|d: Seq<u8>, p: Seq<u8>| #[trigger] queued_for(self.pending_replication@, d, p) ==> queued_for(
                    old(self).pending_replication@,
                    d,
                    p,
                ) || (p == recipient@ && exists|q: int| 0 <= q < j && batch@[q]@ == d),
                forall|d: Seq<u8>, p: Seq<u8>| queued_for(old(self).pending_replication@, d, p) ==> #[trigger] queued_for(
                    self.pending_replication@,
                    d,
                    p,
                ),
                self.section == old(self).section,
                self.proposal_aggregator == old(self).proposal_aggregator,
                self.message_aggregator == old(self).message_aggregator,
                self.dkg_voter == old(self).dkg_voter,
            decreases batch@.len() - j,
        {
            let ghost before = self.pending_replication@;
            self.queue_one(&batch[j], recipient);
            proof {
                assert forall|q: int| 0 <= q < j + 1 implies queued_for(self.pending_replication@, #[trigger] batch@[q]@, recipient@) by {
                    if q < j {
                        assert(queued_for(before, batch@[q]@, recipient@));
                    }
                }
                assert forall|d: Seq<u8>, p: Seq<u8>| #[trigger] queued_for(self.pending_replication@, d, p) implies queued_for(
                    old(self).pending_replication@,
                    d,
                    p,
                ) || (p == recipient@ && exists|q: int| 0 <= q < j + 1 && batch@[q]@ == d) by {
                    if queued_for(before, d, p) {
                        if !queued_for(old(self).pending_replication@, d, p) {
                            let q = choose|q: int| 0 <= q < j && batch@[q]@ == d;
                            assert(0 <= q < j + 1 && batch@[q]@ == d);
                        }
                    } else {
                        assert(d == batch@[j as int]@ && p == recipient@);
                    }
                }
            }
            j += 1;
        }
    }

    fn queue_one(&mut self, data: &Vec<u8>, recipient: &Vec<u8>)
        ensures
            queued_for(final(self).pending_replication@, data@, recipient@),
            forall|d: Seq<u8>, p: Seq<u8>| #[trigger] queued_for(final(self).pending_replication@, d, p) ==> queued_for(
                old(self).pending_replication@,
                d,
                p,
            ) || (d == data@ && p == recipient@),
            forall|d: Seq<u8>, p: Seq<u8>| queued_for(old(self).pending_replication@, d, p) ==> #[trigger] queued_for(
                final(self).pending_replication@,
                d,
                p,
            ),
            final(self).section == old(self).section,
            final(self).proposal_aggregator == old(self).proposal_aggregator,
            final(self).message_aggregator == old(self).message_aggregator,
            final(self).dkg_voter == old(self).dkg_voter,
    {
        let ghost before = self.pending_replication@;
        assert(before == old(self).pending_replication@);
        let mut i: usize = 0;
        while i < self.pending_replication.len()
            invariant
                i <= self.pending_replication@.len(),
                before == old(self).pending_replication@,
                self.pending_replication@ == before,
                self.section == old(self).section,
                self.proposal_aggregator == old(self).proposal_aggregator,
                self.message_aggregator == old(self).message_aggregator,
                self.dkg_voter == old(self).dkg_voter,
            decreases self.pending_replication@.len() - i,
        {
            if self.pending_replication[i].data == *data {
                assert(self.pending_replication@[i as int].data@ =~= data@);
                let mut entry = self.pending_replication.remove(i);
                assert(entry == before[i as int]);
                let ghost old_peers = entry.peers@;
                entry.peers.push(copy_bytes(recipient));
                assert(entry.peers@[old_peers.len() as int]@ == recipient@);
                self.pending_replication.insert(i, entry);
                proof {
                    let now = self.pending_replication@;
                    assert(now[i as int].peers@ == old_peers.push(now[i as int].peers@.last()));
                    assert(now[i as int].data@ == data@);
                    assert(now[i as int].peers@[old_peers.len() as int]@ == recipient@);
                    assert(crate::roster::name_set(now[i as int].peers@).contains(recipient@));
                    assert(queued_for(now, data@, recipient@));
                    assert forall|d: Seq<u8>, p: Seq<u8>| #[trigger] queued_for(now, d, p) implies queued_for(before, d, p) || (d
                        == data@ && p == recipient@) by {
                        let k = choose|k: int|
                            0 <= k < now.len() && #[trigger] now[k].data@ == d && crate::roster::name_set(now[k].peers@).contains(p);
                        if k == i {
                            let m = choose|m: int| 0 <= m < now[k].peers@.len() && #[trigger] now[k].peers@[m]@ == p;
                            if m < old_peers.len() {
                                assert(now[k].peers@[m] == old_peers[m]);
                                assert(before[k].peers@ == old_peers);
                                assert(crate::roster::name_set(before[k].peers@).contains(p));
                            }
                        } else {
                            assert(now[k] == before[k]);
                        }
                    }
                    assert forall|d: Seq<u8>, p: Seq<u8>| queued_for(before, d, p) implies #[trigger] queued_for(now, d, p) by {
                        let k = choose|k: int|
                            0 <= k < before.len() && #[trigger] before[k].data@ == d && crate::roster::name_set(before[k].peers@).contains(p);
                        if k == i {
                            let m = choose|m: int| 0 <= m < old_peers.len() && #[trigger] old_peers[m]@ == p;
                            assert(now[i as int].peers@[m] == old_peers[m]);
                            assert(crate::roster::name_set(now[k].peers@).contains(p));
                            assert(now[k].data@ == d);
                        } else {
                            assert(now[k] == before[k]);
                        }
                    }
                }
                return;
            }
            i += 1;
        }
        let mut peers: Vec<Vec<u8>> = Vec::new();
        peers.push(copy_bytes(recipient));
        self.pending_replication.push(PendingReplication { data: copy_bytes(data), peers });
        proof {
            let now = self.pending_replication@;
            let n = before.len() as int;
            assert(now[n].data@ == data@);
            assert(now[n].peers@[0]@ == recipient@);
            assert(crate::roster::name_set(now[n].peers@).contains(recipient@));
            assert forall|d: Seq<u8>, p: Seq<u8>| queued_for(before, d, p) implies #[trigger] queued_for(now, d, p) by {
                let k = choose|k: int|
                    0 <= k < before.len() && #[trigger] before[k].data@ == d && crate::roster::name_set(before[k].peers@).contains(p);
                assert(now[k] == before[k]);
            }
            assert forall|d: Seq<u8>, p: Seq<u8>| #[trigger] queued_for(now, d, p) implies queued_for(before, d, p) || (d == data@
                && p == recipient@) by {
                let k = choose|k: int|
                    0 <= k < now.len() && #[trigger] now[k].data@ == d && crate::roster::name_set(now[k].peers@).contains(p);
                if k < n {
                    assert(now[k] == before[k]);
                } else {
                    let m = choose|m: int| 0 <= m < now[k].peers@.len() && #[trigger] now[k].peers@[m]@ == p;
                    assert(now[k].peers@.len() == 1);
                }
            }
        }
    }

    /// The outcome of a connectivity test of `name`: a member that could not
    /// be reached is voted offline.
    pub fn handle_connectivity_result(&self, name: &Vec<u8>, reachable: bool) -> (r: Vec<Cmd>)
        requires
            self.wf(),
        ensures
            reachable || !self.section.section_peers.has_name(name@) ==> r@.len() == 0,
            !reachable && self.section.section_peers.has_name(name@) ==> r@.len() == 1 && (r@[0] matches Cmd::ProposeVoteNodesOffline(
                names,
            ) && names@.len() == 1 && names@[0]@ == name@),
    {
        if reachable || self.section.section_peers.find(name).is_none() {
            return Vec::new();
        }
        let names = vec![copy_bytes(name)];
        vec![Cmd::ProposeVoteNodesOffline(names)]
    }

    /// Sends a bounced frame again, to the Elders of `signed_sap` and under
    /// its section key. A frame that does not decode is dropped.
    pub fn resend_bounced(&self, bounced: &Vec<u8>, signed_sap: &SignedSap) -> (r: Result<Vec<Cmd>, Error>)
        ensures
            r is Ok,
            crate::wire::parse_wire(bounced@) is None ==> (r matches Ok(c) && c@.len() == 0),
            crate::wire::parse_wire(bounced@) matches Some(m) ==> (r matches Ok(c) && c@.len() == 1 && (c@[0] matches Cmd::SendBytes {
                bytes,
                recipients,
            } && peers_view(recipients@) == peers_view(signed_sap.value.elders@) && bytes@ == wire_bytes(
                WireView {
                    dst_name: crate::name::prefix_name(signed_sap.value.prefix@),
                    dst_section_key: signed_sap.sig.public_key@,
                    ..m
                },
            ))),
    {
        match WireMsg::deserialize(bounced) {
            Some(m) => {
                let dst_name = signed_sap.value.prefix.name();
                let readdressed = m.with_dst(&dst_name, &signed_sap.sig.public_key);
                let recipients = crate::sap::copy_peers(&signed_sap.value.elders);
                Ok(vec![Cmd::SendBytes { bytes: readdressed.serialize(), recipients }])
            },
            None => Ok(Vec::new()),
        }
    }

    /// Handles a message: aggregates it first when it is signed with a key
    /// share; a message still short of shares, or with an invalid share, is
    /// dropped without commands.
    pub fn handle_system_msg(&mut self, sender: Peer, authority: MsgAuthority, msg: NodeMsg, payload: &Vec<u8>, now: u64) -> (r: Result<Vec<Cmd>, Error>)
        requires
            old(self).wf(),
        ensures
            final(self).wf(),
            authority matches MsgAuthority::Node(a) ==> {
                let signed = a.public_key@ == sender.name@ && crate::crypto::ed25519_sig_valid(
                    a.public_key@,
                    payload@,
                    a.signature@,
                );
                &&& (!signed ==> (r matches Ok(c) && c@.len() == 0) && *final(self) == *old(self))
                &&& (signed ==> valid_msg_outcome(*old(self), *final(self), msg, sender, r))
            },
            authority matches MsgAuthority::Section(a) ==> {
                let signed = old(self).section.chain.has(a.public_key@) && bls_sig_valid(a.public_key@, payload@, a.signature@);
                &&& (!signed ==> (r matches Ok(c) && c@.len() == 0) && *final(self) == *old(self))
                &&& (signed ==> valid_msg_outcome(*old(self), *final(self), msg, sender, r))
            },
            authority matches MsgAuthority::BlsShare(sh) ==> ({
                let agg = old(self).message_aggregator;
                let after = agg.indices_after(payload@, sh);
                &&& (!share_ok(sh, payload@) ==> (r matches Ok(c) && c@.len() == 0) && *final(self) == *old(self))
                &&& (share_ok(sh, payload@) && after.len() <= crate::crypto::bls_set_threshold(sh.public_key_set@) ==> (r matches Ok(
                    c,
                ) && c@.len() == 0) && final(self).message_aggregator.held_indices(payload@, sh.public_key_set@) == after)
                &&& (share_ok(sh, payload@) && after.len() > crate::crypto::bls_set_threshold(sh.public_key_set@) && bls_sig_valid(
                    crate::crypto::bls_set_public_key(sh.public_key_set@),
                    payload@,
                    crate::crypto::bls_combined(sh.public_key_set@, after, agg.shares_after(payload@, sh)),
                ) ==> exists|mid: MyNode|
                    mid == (MyNode { message_aggregator: mid.message_aggregator, ..*old(self) }) && #[trigger] valid_msg_outcome(
                        mid,
                        *final(self),
                        msg,
                        sender,
                        r,
                    ))
            }),
    {
        match &authority {
            MsgAuthority::Node(a) => {
                if !(a.public_key == sender.name) || !crate::crypto::ed25519_verify(&a.public_key, payload, &a.signature) {
                    proof {
                        if a.public_key@ == sender.name@ {
                            assert(a.public_key@ =~= sender.name@);
                        }
                    }
                    return Ok(Vec::new());
                }
                assert(a.public_key@ =~= sender.name@);
                return self.handle_valid_msg(msg, sender, now);
            },
            MsgAuthority::Section(a) => {
                if !self.section.chain.has_key(&a.public_key) || !bls_verify(&a.public_key, payload, &a.signature) {
                    return Ok(Vec::new());
                }
                return self.handle_valid_msg(msg, sender, now);
            },
            MsgAuthority::BlsShare(_) => {},
        }
        let mut authority = authority;
        match self.aggregate_msg_and_stop(&mut authority, payload) {
            Ok(false) => {
                let ghost mid = *self;
                let r = self.handle_valid_msg(msg, sender, now);
                assert(valid_msg_outcome(mid, *self, msg, sender, r));
                r
            },
            Ok(true) => Ok(Vec::new()),
            Err(_) => Ok(Vec::new()),
        }
    }

    /// Votes each named member offline: a proposal that it left, sent to our Elders.
    pub fn cast_offline_proposals(&mut self, names: &Vec<Vec<u8>>) -> (r: Result<Vec<Cmd>, Error>)
        requires
            old(self).wf(),
        ensures
            final(self).wf(),
            offline_votes_cast(*old(self), names@, r),
            final(self).section == old(self).section,
    {
        let mut cmds: Vec<Cmd> = Vec::new();
        let mut i: usize = 0;
        while i < names.len()
            invariant
                self.wf(),
                i <= names@.len(),
                self.section == old(self).section,
                self.name == old(self).name,
                self.key_share == old(self).key_share,
                forall|j: int|
                    0 <= j < i && old(self).section.section_peers.has_name(#[trigger] names@[j]@) ==> exists|k: int|
                        0 <= k < cmds@.len() && proposes_offline(cmds@[k], names@[j]@),
            decreases names@.len() - i,
        {
            match self.section.section_peers.find(&names[i]) {
                Some(k) => {
                    let peer = self.section.section_peers.members[k].value.peer.duplicate();
                    let proposal = NodeState { peer, state: MembershipState::Left };
                    let elders = crate::sap::copy_peers(&self.section.section_auth.value.elders);
                    let ghost pname = proposal.peer.name@;
                    assert(pname == names@[i as int]@);
                    match self.vote_offline(elders, proposal) {
                        Ok(more) => {
                            let ghost before = cmds@;
                            let mut more = more;
                            let ghost m = more@;
                            cmds.append(&mut more);
                            proof {
                                assert(cmds@ == before + m);
                                assert(proposes_offline(cmds@[before.len() as int], names@[i as int]@));
                                assert forall|j: int|
                                    0 <= j < i + 1 && old(self).section.section_peers.has_name(#[trigger] names@[j]@) implies exists|k: int|
                                    0 <= k < cmds@.len() && proposes_offline(cmds@[k], names@[j]@) by {
                                    if j < i {
                                        let k = choose|k: int| 0 <= k < before.len() && proposes_offline(before[k], names@[j]@);
                                        assert(cmds@[k] == before[k]);
                                    } else {
                                        assert(proposes_offline(cmds@[before.len() as int], names@[j]@));
                                    }
                                }
                            }
                        },
                        Err(e) => {
                            proof {
                                if let Some(ks) = old(self).key_share {
                                    assert(!crate::crypto::bls_secret_decodes(ks.secret_key_share@));
                                }
                            }
                            return Err(e);
                        },
                    }
                },
                None => {},
            }
            i += 1;
        }
        proof {
            assert forall|j: int|
                0 <= j < names@.len() && old(self).section.section_peers.has_name(#[trigger] names@[j]@) implies exists|k: int|
                0 <= k < cmds@.len() && proposes_offline(cmds@[k], names@[j]@) by {}
            let r: Result<Vec<Cmd>, Error> = Ok(cmds);
            assert(r matches Ok(c) && c@ == cmds@);
            assert(offline_votes_cast(*old(self), names@, r));
        }
        Ok(cmds)
    }

    /// Applies a command that changes only this node's state; the commands
    /// that perform I/O are returned unchanged for the caller to perform.
    pub fn process_cmd(&mut self, cmd: Cmd) -> (r: Result<Vec<Cmd>, Error>)
        requires
            old(self).wf(),
        ensures
            final(self).wf(),
            cmd matches Cmd::HandleNodeOffAgreement { proposal, sig } ==> (r is Ok <==> bls_sig_valid(
                sig.public_key@,
                node_state_bytes(proposal),
                sig.signature@,
            )) && (r is Ok ==> final(self).section.section_peers.members@ == merge_step(
                old(self).section.section_peers.members@,
                SignedNodeState { value: proposal, sig },
                old(self).section.chain,
                old(self).section.section_auth.value.prefix@,
            )),
            cmd matches Cmd::SetStorageLevel(level) ==> final(self).storage_level == level && (r matches Ok(c) && c@.len() == 0),
            cmd matches Cmd::TrackNodeIssue { name } ==> final(self).node_issues@.last()@ == name@ && final(self).section
                == old(self).section,
            cmd matches Cmd::HandleFailedSendToNode { peer } ==> final(self).node_issues@.last()@ == peer.name@
                && final(self).section == old(self).section && (r matches Ok(c) && c@.len() == 0),
            cmd matches Cmd::ProposeVoteNodesOffline(names) ==> offline_votes_cast(*old(self), names@, r),
            cmd matches Cmd::EnqueueDataForReplication { recipient, data_batch } ==> (forall|j: int|
                0 <= j < data_batch@.len() ==> queued_for(final(self).pending_replication@, #[trigger] data_batch@[j]@, recipient@))
                && (forall|d: Seq<u8>, p: Seq<u8>| #[trigger] queued_for(final(self).pending_replication@, d, p) <==> (queued_for(
                old(self).pending_replication@,
                d,
                p,
            ) || (p == recipient@ && exists|q: int| 0 <= q < data_batch@.len() && data_batch@[q]@ == d)))
                && (r matches Ok(c) && c@.len() == 0) && final(self).section == old(self).section,
            (cmd is SendMsg || cmd is SendBytes || cmd is HandleMsg || cmd is TestConnectivity || cmd is GenerateDkgKey
                || cmd is DkgOutcome) ==> (r matches Ok(c) && c@.len() == 1) && *final(self) == *old(self),
    {
        match cmd {
            Cmd::HandleNodeOffAgreement { proposal, sig } => self.handle_section_decision_agreement(proposal, sig),
            Cmd::HandleFailedSendToNode { peer } => {
                self.track_node_issue(&peer.name);
                Ok(Vec::new())
            },
            Cmd::TrackNodeIssue { name } => {
                self.track_node_issue(&name);
                Ok(Vec::new())
            },
            Cmd::SetStorageLevel(level) => {
                self.storage_level = level;
                Ok(Vec::new())
            },
            Cmd::ProposeVoteNodesOffline(names) => self.cast_offline_proposals(&names),
            Cmd::EnqueueDataForReplication { recipient, data_batch } => {
                self.enqueue_for_replication(&recipient, &data_batch);
                Ok(Vec::new())
            },
            other => Ok(vec![other]),
        }
    }
}

/// What recording a storage level does: a node at or above the full level
/// that is not yet counted is counted (`r`), reopening joins at the full
/// level; otherwise nothing changes.
pub open spec fn storage_effect(old: MyNode, new: MyNode, name: Seq<u8>, level: u8, r: bool) -> bool {
    &&& r == (level >= MIN_LEVEL_WHEN_FULL && !crate::roster::name_set(old.full_nodes@).contains(name))
    &&& (!r ==> new == old)
    &&& (r ==> new.full_nodes@.len() == old.full_nodes@.len() + 1 && new.full_nodes@.drop_last() == old.full_nodes@
        && new.full_nodes@.last()@ == name)
    &&& (r ==> new.joins_allowed == (old.joins_allowed || level == MIN_LEVEL_WHEN_FULL))
    &&& new.section == old.section
    &&& new.proposal_aggregator == old.proposal_aggregator
    &&& new.message_aggregator == old.message_aggregator
    &&& new.dkg_voter == old.dkg_voter
    &&& new.name == old.name
    &&& new.key_share == old.key_share
}

/// What absorbing anti-entropy knowledge (`signed_sap` and `proof_chain`)
/// does to the node, as `Section::handle_ae_update` states it.
pub open spec fn ae_outcome(
    old: MyNode,
    new: MyNode,
    signed_sap: SignedSap,
    proof_chain: SectionChain,
    members: Option<SectionPeers>,
    r: Result<Vec<Cmd>, Error>,
) -> bool {
    let usable = proof_chain.wf() && signed_sap.value.prefix.wf();
    &&& (!(r is Ok && signed_sap.sig.public_key@ == new.section.chain.last_spec()) ==> new.section.section_auth
        == old.section.section_auth)
    &&& (r is Ok ==> new.section.section_peers.members@ == crate::roster::retained(
        match members {
            Some(p) => crate::section::merged(
                old.section.section_peers.members@,
                p.members@,
                new.section.chain,
                new.section.section_auth.value.prefix@,
            ),
            None => old.section.section_peers.members@,
        },
        new.section.section_auth.value.prefix@,
    ))
    &&& (!usable ==> (r matches Err(Error::UntrustedProofChain)) && new == old)
    &&& (usable ==> (r is Ok <==> (old.section.chain.root_spec() == proof_chain.root_spec() && proof_chain.valid())))
    &&& (r is Err ==> new.section == old.section)
    &&& ((forall|k: Seq<u8>| #[trigger] proof_chain.has(k) ==> old.section.chain.has(k)) ==> new.section.chain
        == old.section.chain)
    &&& (old.section.section_auth@ == signed_sap@ ==> new.section.section_auth@ == old.section.section_auth@)
    &&& (r is Ok ==> forall|k: Seq<u8>| #[trigger] new.section.chain.has(k) <==> (old.section.chain.has(k) || proof_chain.has(k)))
    &&& (r is Ok && signed_sap.sig.public_key@ == new.section.chain.last_spec() ==> new.section.section_auth@ == signed_sap@)
}

/// What handling a checked message does, by kind of message.
pub open spec fn valid_msg_outcome(old: MyNode, new: MyNode, msg: NodeMsg, sender: Peer, r: Result<Vec<Cmd>, Error>) -> bool {
    let elder = old.section.section_auth.value.elder_names().contains(old.name@);
    match msg {
        NodeMsg::ProposeNodeOff { proposal: _, sig_share: _ } => r is Ok && (r matches Ok(c) ==> c@.len() <= 1) && new.section
            == old.section,
        NodeMsg::AntiEntropyUpdate { signed_sap, proof_chain, members } => ae_outcome(old, new, signed_sap, proof_chain, members, r)
            && (r matches Ok(c) ==> c@.len() == 0),
        NodeMsg::AntiEntropyRetry { signed_sap, proof_chain, bounced: _ } => ae_outcome(
            old,
            new,
            signed_sap,
            proof_chain,
            None,
            r,
        ) && (r matches Ok(c) ==> c@.len() <= 1),
        NodeMsg::AntiEntropyRedirect { signed_sap: _, section_chain: _, bounced: _ } => new == old && r is Ok && (r matches Ok(
            c,
        ) ==> c@.len() <= 1),
        NodeMsg::AntiEntropyProbe => new == old && (r matches Ok(c) && c@.len() == 0),
        NodeMsg::NodeMsgError => new == old && (r matches Ok(c) && c@.len() == 0),
        NodeMsg::StartConnectivityTest(n) => new == old && (!elder ==> (r matches Ok(c) && c@.len() == 0)) && (elder ==> (r matches Ok(
            c,
        ) && c@.len() == 1 && (c@[0] matches Cmd::TestConnectivity(m) && m == n))),
        NodeMsg::DkgStart(session) => new == old && (!session.names().contains(old.name@) ==> (r matches Ok(c) && c@.len()
            == 0)) && (session.names().contains(old.name@) ==> (r matches Ok(c) && c@.len() == 1 && (c@[0] matches Cmd::GenerateDkgKey(
            s2,
        ) && s2 == session))),
        NodeMsg::DkgEphemeralPubKey { session_id, key, sig } => {
            &&& (!session_id.names().contains(old.name@) ==> (r matches Ok(c) && c@.len() == 0) && new == old)
            &&& (session_id.names().contains(old.name@) ==> {
                &&& (!session_id.names().contains(sender.name@) ==> r matches Err(Error::NodeNotInDkgSession(_)))
                &&& (session_id.names().contains(sender.name@) && !crate::crypto::ed25519_sig_valid(sender.name@, key@, sig@)
                    ==> r matches Err(Error::InvalidSignature))
                &&& ({
                    let h = session_id.hash_spec();
                    let held = old.dkg_voter.keys_at(h);
                    session_id.names().contains(sender.name@) && crate::crypto::ed25519_sig_valid(sender.name@, key@, sig@)
                        && old.dkg_voter.has_keys(h) && !(crate::dkg::owners(held).contains(sender.name@)
                        && crate::dkg::held_key(held, sender.name@).key@ != key@) && crate::dkg::owners(held).insert(
                        sender.name@,
                    ) != session_id.names() ==> (r matches Ok(c) && c@.len() == 0)
                })
                &&& (r matches Ok(c) ==> c@.len() <= 1 && (c@.len() == 1 ==> (c@[0] matches Cmd::SendMsg {
                    msg: NodeMsg::DkgVote { session_id: s2, vote: _ },
                    recipients,
                } && s2 == session_id && peers_view(recipients@) == peers_view(session_id.elders@)) && new.dkg_voter.has_state(
                    session_id.hash_spec(),
                )))
            })
            &&& new.section == old.section
        },
        NodeMsg::DkgVote { session_id, vote: _ } => (!old.dkg_voter.has_state(session_id.hash_spec()) ==> r matches Err(
            Error::NoDkgStateForSession,
        )) && (r matches Ok(c) ==> exists|rs: Seq<DkgReaction>| #[trigger] reaction_commands(c@, rs, session_id))
            && new.section == old.section,
        NodeMsg::RecordStorageLevel { node_name, level } => (exists|b: bool| storage_effect(old, new, node_name@, level, b)) && (
        r matches Ok(c) && c@.len() == 0),
        NodeMsg::CouldNotStoreData { node_name, full } => (elder && full ==> exists|b: bool|
            storage_effect(old, new, node_name@, MIN_LEVEL_WHEN_FULL, b)) && (!(elder && full) ==> new == old) && (r matches Ok(
            c,
        ) && c@.len() == 0),
    }
}

/// What handling a vote that `proposal` goes offline does, with the section
/// knowledge `section` and the proposal aggregator going from `agg` to
/// `agg_new`, giving the commands `c`: ignored unless the sender is under our
/// prefix and the share's key set is of our chain; an invalid share changes
/// nothing; a share short of quorum is held; a share that completes a quorum
/// whose combination verifies gives the agreement.
pub open spec fn proposal_outcome(
    section: Section,
    agg: SignatureAggregator,
    agg_new: SignatureAggregator,
    proposal: NodeState,
    sig_share: SigShare,
    sender_name: Seq<u8>,
    c: Seq<Cmd>,
) -> bool {
    let pk = sig_share.public_key_set@;
    let payload = node_state_bytes(proposal);
    let admitted = prefix_matches(section.section_auth.value.prefix@, sender_name) && pk.len() >= crate::crypto::PK_LEN
        && crate::crypto::bls_set_decodes(pk) && section.chain.has(crate::crypto::bls_set_public_key(pk));
    let after = agg.indices_after(payload, sig_share);
    let quorum = share_ok(sig_share, payload) && after.len() > crate::crypto::bls_set_threshold(pk);
    &&& (!admitted ==> c.len() == 0 && agg_new == agg)
    &&& (admitted && !share_ok(sig_share, payload) ==> c.len() == 0 && agg_new == agg)
    &&& (admitted && share_ok(sig_share, payload) && !quorum ==> c.len() == 0 && agg_new.held_indices(payload, pk) == after)
    &&& (admitted && quorum && bls_sig_valid(
        crate::crypto::bls_set_public_key(pk),
        payload,
        crate::crypto::bls_combined(pk, after, agg.shares_after(payload, sig_share)),
    ) ==> c.len() == 1)
    &&& c.len() <= 1
    &&& (c.len() == 1 ==> admitted && (c[0] matches Cmd::HandleNodeOffAgreement { proposal: p, sig } && p == proposal
        && sig.public_key@ == crate::crypto::bls_set_public_key(pk) && bls_sig_valid(sig.public_key@, payload, sig.signature@)
        && quorum_of_shares(pk, payload, after, agg.shares_after(payload, sig_share))))
}

/// `c` are the commands for the reactions `rs` of `session`'s state, in
/// order: our next vote goes to every participant, an outcome is reported
/// with its key set and secret share, waiting needs nothing.
pub open spec fn reaction_commands(c: Seq<Cmd>, rs: Seq<DkgReaction>, session: DkgSessionId) -> bool
    decreases rs.len(),
{
    if rs.len() == 0 {
        c.len() == 0
    } else {
        match rs.last() {
            DkgReaction::BroadcastVote(v) => c.len() > 0 && (c.last() matches Cmd::SendMsg {
                msg: NodeMsg::DkgVote { session_id: s, vote },
                recipients,
            } && vote == v && s.hash_spec() == session.hash_spec() && peers_view(recipients@) == peers_view(session.elders@))
                && reaction_commands(c.drop_last(), rs.drop_last(), session),
            DkgReaction::Complete { public_key_set, secret_key_share } => c.len() > 0 && (c.last() matches Cmd::DkgOutcome {
                session_id: s,
                public_key_set: pk,
                secret_key_share: sk,
            } && pk == public_key_set && sk == secret_key_share && s.hash_spec() == session.hash_spec()) && reaction_commands(
                c.drop_last(),
                rs.drop_last(),
                session,
            ),
            _ => reaction_commands(c, rs.drop_last(), session),
        }
    }
}

/// The reactions of a session's state, as the library reads them.
pub fn classify_all(responses: Vec<sn_sdkg::VoteResponse>) -> (r: Vec<DkgReaction>)
    ensures
        r@.len() == responses@.len(),
{
    let mut out: Vec<DkgReaction> = Vec::new();
    let mut rest = responses;
    let mut tail: Vec<sn_sdkg::VoteResponse> = Vec::new();
    let ghost n = rest@.len();
    while rest.len() > 0
        invariant
            tail@.len() + rest@.len() == n,
        decreases rest@.len(),
    {
        tail.push(rest.pop().unwrap());
    }
    while tail.len() > 0
        invariant
            out@.len() + tail@.len() == n,
        decreases tail@.len(),
    {
        out.push(crate::dkg_engine::classify_response(tail.pop().unwrap()));
    }
    out
}

/// The commands that follow from a DKG state's reactions, in order.
pub fn dkg_reactions(session: &DkgSessionId, reactions: Vec<DkgReaction>) -> (r: Vec<Cmd>)
    ensures
        reaction_commands(r@, reactions@, *session),
{
    let ghost orig = reactions@;
    let mut rest = reactions;
    let mut tail: Vec<DkgReaction> = Vec::new();
    while rest.len() > 0
        invariant
            orig == rest@ + tail@.reverse(),
        decreases rest@.len(),
    {
        let m = rest.pop().unwrap();
        tail.push(m);
        assert(orig =~= rest@ + tail@.reverse());
    }
    assert(tail@.reverse() =~= orig);
    let n = tail.len();
    let mut i: usize = 0;
    let mut out: Vec<Cmd> = Vec::new();
    while tail.len() > 0
        invariant
            tail@.len() + i == n,
            n == orig.len(),
            tail@.reverse() == orig.subrange(i as int, n as int),
            reaction_commands(out@, orig.subrange(0, i as int), *session),
        decreases tail@.len(),
    {
        let ghost before = tail@;
        let ghost out0 = out@;
        let m = tail.pop().unwrap();
        assert(m == orig[i as int]) by {
            assert(before.reverse()[0] == before[before.len() - 1]);
        }
        assert(tail@.reverse() =~= orig.subrange(i as int + 1, n as int)) by {
            assert forall|q: int| 0 <= q < tail@.len() implies tail@.reverse()[q] == orig.subrange(i as int + 1, n as int)[q] by {
                assert(before.reverse()[q + 1] == orig.subrange(i as int, n as int)[q + 1]);
            }
        }
        let ghost sub = orig.subrange(0, i as int + 1);
        assert(sub.drop_last() =~= orig.subrange(0, i as int));
        assert(sub.last() == m);
        match m {
            DkgReaction::BroadcastVote(vote) => {
                let s = session.duplicate();
                out.push(Cmd::SendMsg {
                    msg: NodeMsg::DkgVote { session_id: s, vote },
                    recipients: crate::sap::copy_peers(&session.elders),
                });
                assert(out@.drop_last() =~= out0);
            },
            DkgReaction::Complete { public_key_set, secret_key_share } => {
                out.push(Cmd::DkgOutcome { session_id: session.duplicate(), public_key_set, secret_key_share });
                assert(out@.drop_last() =~= out0);
            },
            _ => {},
        }
        i += 1;
    }
    assert(orig.subrange(0, n as int) =~= orig);
    out
}

/// `c` sends a vote that the member named `name` left.
pub open spec fn proposes_offline(c: Cmd, name: Seq<u8>) -> bool {
    c matches Cmd::SendMsg { msg: NodeMsg::ProposeNodeOff { proposal: p, sig_share: _ }, recipients: _ } && p.peer.name@
        == name && p.state is Left
}

/// Voting the named members offline: with a usable key share it succeeds,
/// and for each named member of the roster a vote that it left is sent.
pub open spec fn offline_votes_cast(old: MyNode, names: Seq<Vec<u8>>, r: Result<Vec<Cmd>, Error>) -> bool {
    &&& (old.key_share matches Some(ks) && crate::crypto::bls_secret_decodes(ks.secret_key_share@) ==> r is Ok)
    &&& (r matches Ok(c) ==> forall|j: int|
        0 <= j < names.len() && old.section.section_peers.has_name(#[trigger] names[j]@) ==> exists|k: int|
            0 <= k < c@.len() && proposes_offline(c@[k], names[j]@))
}

/// The peers of `s` not named `n`, in order.
pub open spec fn others_of(s: Seq<PeerView>, n: Seq<u8>) -> Seq<PeerView>
    decreases s.len(),
{
    if s.len() == 0 {
        s
    } else if s.last().name == n {
        others_of(s.drop_last(), n)
    } else {
        others_of(s.drop_last(), n).push(s.last())
    }
}

proof fn lemma_others_names(s: Seq<PeerView>, n: Seq<u8>)
    ensures
        forall|i: int| 0 <= i < others_of(s, n).len() ==> (#[trigger] others_of(s, n)[i]).name != n,
        (forall|i: int| 0 <= i < s.len() ==> (#[trigger] s[i]).name != n) ==> others_of(s, n) == s,
    decreases s.len(),
{
    if s.len() > 0 {
        lemma_others_names(s.drop_last(), n);
        let o = others_of(s, n);
        let o0 = others_of(s.drop_last(), n);
        assert forall|i: int| 0 <= i < o.len() implies (#[trigger] o[i]).name != n by {
            if i < o0.len() {
                assert(o[i] == o0[i]);
            }
        }
        if forall|i: int| 0 <= i < s.len() ==> (#[trigger] s[i]).name != n {
            assert forall|i: int| 0 <= i < s.drop_last().len() implies (#[trigger] s.drop_last()[i]).name != n by {
                assert(s.drop_last()[i] == s[i]);
            }
            assert(s[s.len() - 1].name != n);
            assert(s.drop_last().push(s.last()) =~= s);
        }
    }
}

/// Splits `recipients` into the others, in order, and, if present, ourselves.
pub fn split_nodes_and_self(recipients: Vec<Peer>, our_name: &Vec<u8>) -> (r: (Vec<Peer>, Option<Peer>))
    ensures
        peers_view(r.0@) == others_of(peers_view(recipients@), our_name@),
        forall|i: int| 0 <= i < r.0@.len() ==> (#[trigger] r.0@[i]).name@ != our_name@,
        r.1 matches Some(p) ==> p.name@ == our_name@,
        r.1 is None <==> forall|i: int| 0 <= i < recipients@.len() ==> (#[trigger] recipients@[i]).name@ != our_name@,
{
    let ghost orig = peers_view(recipients@);
    let mut others: Vec<Peer> = Vec::new();
    let mut me: Option<Peer> = None;
    let mut i: usize = 0;
    while i < recipients.len()
        invariant
            i <= recipients@.len(),
            orig == peers_view(recipients@),
            peers_view(others@) == others_of(orig.subrange(0, i as int), our_name@),
            me matches Some(p) ==> p.name@ == our_name@,
            me is None <==> forall|j: int| 0 <= j < i ==> (#[trigger] recipients@[j]).name@ != our_name@,
        decreases recipients@.len() - i,
    {
        let ghost sub = orig.subrange(0, i as int + 1);
        assert(sub.drop_last() =~= orig.subrange(0, i as int));
        assert(sub.last() == recipients@[i as int]@);
        let p = recipients[i].duplicate();
        if p.name == *our_name {
            assert(p.name@ =~= our_name@);
            if me.is_none() {
                me = Some(p);
            }
        } else {
            proof {
                if p.name@ == our_name@ {
                    assert(p.name@ =~= our_name@);
                }
            }
            let ghost before = peers_view(others@);
            others.push(p);
            assert(peers_view(others@) =~= before.push(sub.last()));
        }
        i += 1;
    }
    assert(orig.subrange(0, i as int) =~= orig);
    proof {
        lemma_others_names(orig, our_name@);
        assert forall|j: int| 0 <= j < others@.len() implies (#[trigger] others@[j]).name@ != our_name@ by {
            assert(peers_view(others@)[j].name != our_name@);
        }
    }
    (others, me)
}

} // verus!
