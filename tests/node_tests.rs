use sn_node::aggregator::{SigShare, SignatureAggregator};
use sn_node::chain::SectionChain;
use sn_node::error::Error;
use sn_node::key_section::{ElderState, KeySection, NodeOperation};
use sn_node::name::Prefix;
use sn_node::node::{Cmd, MsgAuthority, MyNode, NodeMsg};
use sn_node::sap::{KeyedSig, MembershipState, NodeState, Peer, SectionAuthorityProvider, SignedNodeState, SignedSap};
use sn_node::section::{Section, SectionKeyShare};
use sn_node::wire::{AuthKind, WireMsg};

fn name(first: u8) -> Vec<u8> {
    let mut v = vec![0u8; 32];
    v[0] = first;
    v
}

fn peer(first: u8, age: u8) -> Peer {
    Peer { name: name(first), addr: vec![192, 168, 0, first], age }
}

/// A section of four Elders whose key set has threshold 2.
fn four_elders() -> (blsttc::SecretKeySet, MyNode) {
    let sks = blsttc::SecretKeySet::random(2, &mut rand::thread_rng());
    let key = sks.public_keys().public_key().to_bytes().to_vec();
    let sap = SectionAuthorityProvider {
        prefix: Prefix::root(),
        public_key_set: sks.public_keys().to_bytes(),
        elders: vec![peer(1, 50), peer(2, 50), peer(3, 50), peer(4, 50)],
    };
    let signature = sks.secret_key().sign(sap.to_bytes()).to_bytes().to_vec();
    let signed = SignedSap { value: sap, sig: KeyedSig { public_key: key.clone(), signature } };
    let section = Section::new(key.clone(), SectionChain::new(key), signed).unwrap();
    let share = SectionKeyShare {
        public_key_set: sks.public_keys().to_bytes(),
        index: 0,
        secret_key_share: sks.secret_key_share(0usize).to_bytes().to_vec(),
    };
    let node = MyNode::new(name(1), vec![192, 168, 0, 1], 50, vec![0u8; 64], section, Some(share));
    (sks, node)
}

fn share_of(sks: &blsttc::SecretKeySet, i: usize, msg: &[u8]) -> SigShare {
    SigShare {
        public_key_set: sks.public_keys().to_bytes(),
        index: i,
        signature_share: sks.secret_key_share(i).sign(msg).to_bytes().to_vec(),
    }
}

fn join(node: &mut MyNode, sks: &blsttc::SecretKeySet, p: Peer) {
    let state = NodeState::joined(p);
    let signature = sks.secret_key().sign(state.to_bytes()).to_bytes().to_vec();
    let key = sks.public_keys().public_key().to_bytes().to_vec();
    assert!(node.section.update_member(SignedNodeState { value: state, sig: KeyedSig { public_key: key, signature } }));
}

fn state_of(node: &MyNode, n: &Vec<u8>) -> MembershipState {
    let i = node.section.members().find(n).unwrap();
    node.section.members().members[i].value.state.clone()
}

#[test]
fn offline_needs_a_quorum_of_votes() {
    let (sks, mut node) = four_elders();
    join(&mut node, &sks, peer(9, 12));
    let proposal = NodeState { peer: peer(9, 12), state: MembershipState::Left };
    let bytes = proposal.to_bytes();
    // supermajority(4) - 1 = 2 votes: nothing happens
    for i in 0..2 {
        let cmds = node.handle_section_state_proposal(proposal.clone(), share_of(&sks, i, &bytes), &peer(2, 50)).unwrap();
        assert!(cmds.is_empty());
    }
    assert!(matches!(state_of(&node, &name(9)), MembershipState::Joined));
    // the third vote aggregates
    let mut cmds = node.handle_section_state_proposal(proposal.clone(), share_of(&sks, 2, &bytes), &peer(3, 50)).unwrap();
    assert_eq!(cmds.len(), 1);
    let cmd = cmds.remove(0);
    assert!(matches!(cmd, Cmd::HandleNodeOffAgreement { .. }));
    let follow = node.process_cmd(cmd).unwrap();
    assert!(follow.is_empty());
    assert!(matches!(state_of(&node, &name(9)), MembershipState::Left));
}

#[test]
fn proposals_from_other_sections_are_ignored() {
    let sks = blsttc::SecretKeySet::random(0, &mut rand::thread_rng());
    let key = sks.public_keys().public_key().to_bytes().to_vec();
    let sap = SectionAuthorityProvider {
        prefix: Prefix::root().pushed(true),
        public_key_set: sks.public_keys().to_bytes(),
        elders: vec![peer(0x81, 50)],
    };
    let signature = sks.secret_key().sign(sap.to_bytes()).to_bytes().to_vec();
    let signed = SignedSap { value: sap, sig: KeyedSig { public_key: key.clone(), signature } };
    let section = Section::new(key.clone(), SectionChain::new(key), signed).unwrap();
    let mut node = MyNode::new(name(0x81), vec![1], 50, vec![0u8; 64], section, None);
    let proposal = NodeState { peer: peer(0x82, 9), state: MembershipState::Left };
    let share = share_of(&sks, 0, &proposal.to_bytes());
    let cmds = node.handle_section_state_proposal(proposal, share, &peer(0x01, 50)).unwrap();
    assert!(cmds.is_empty());
}

#[test]
fn agreement_with_bad_signature_is_refused() {
    let (sks, mut node) = four_elders();
    join(&mut node, &sks, peer(9, 12));
    let proposal = NodeState { peer: peer(9, 12), state: MembershipState::Left };
    let sig = KeyedSig {
        public_key: sks.public_keys().public_key().to_bytes().to_vec(),
        signature: blsttc::SecretKey::random().sign(proposal.to_bytes()).to_bytes().to_vec(),
    };
    assert!(matches!(node.handle_section_decision_agreement(proposal, sig), Err(Error::InvalidSignature)));
    assert!(matches!(state_of(&node, &name(9)), MembershipState::Joined));
}

#[test]
fn aggregator_counts_distinct_valid_shares() {
    let sks = blsttc::SecretKeySet::random(1, &mut rand::thread_rng());
    let msg = b"payload".to_vec();
    let mut agg = SignatureAggregator::new();
    let bad = SigShare { public_key_set: sks.public_keys().to_bytes(), index: 0, signature_share: vec![0u8; 96] };
    assert!(matches!(agg.try_aggregate(&msg, bad), Err(Error::InvalidSignatureShare)));
    let short = SigShare { public_key_set: vec![1, 2], index: 0, signature_share: vec![0u8; 96] };
    assert!(matches!(agg.try_aggregate(&msg, short), Err(Error::InvalidSignatureShare)));
    assert!(agg.try_aggregate(&msg, share_of(&sks, 0, &msg)).unwrap().is_none());
    // the same share again does not count twice
    assert!(agg.try_aggregate(&msg, share_of(&sks, 0, &msg)).unwrap().is_none());
    let sig = agg.try_aggregate(&msg, share_of(&sks, 1, &msg)).unwrap().unwrap();
    assert_eq!(sig.public_key, sks.public_keys().public_key().to_bytes().to_vec());
    let signature = blsttc::Signature::from_bytes(sig.signature.clone().try_into().unwrap()).unwrap();
    assert!(sks.public_keys().public_key().verify(&signature, &msg));
}

#[test]
fn node_off_proposal_goes_to_others_and_self() {
    let (sks, mut node) = four_elders();
    join(&mut node, &sks, peer(9, 12));
    let proposal = NodeState { peer: peer(9, 12), state: MembershipState::Left };
    let recipients = vec![peer(1, 50), peer(2, 50), peer(3, 50)];
    let cmds = node.send_node_off_proposal(recipients, proposal).unwrap();
    assert_eq!(cmds.len(), 1);
    match &cmds[0] {
        Cmd::SendMsg { msg: NodeMsg::ProposeNodeOff { .. }, recipients } => assert_eq!(recipients.len(), 2),
        _ => panic!("expected the proposal to be sent"),
    }
    assert_eq!(node.node_issues.len(), 2);
    let mut no_share = node;
    no_share.key_share = None;
    let proposal = NodeState { peer: peer(9, 12), state: MembershipState::Left };
    assert!(matches!(no_share.send_node_off_proposal(vec![peer(2, 50)], proposal), Err(Error::InvalidState)));
}

fn frame(auth: AuthKind) -> WireMsg {
    WireMsg {
        msg_id: vec![3u8; 16],
        src_name: name(5),
        dst_name: name(6),
        dst_section_key: vec![4u8; 48],
        auth,
        payload_kind: 1,
        payload: vec![9, 9, 9],
    }
}

#[test]
fn routing_to_self_needs_a_key_share_signature() {
    let (_sks, node) = four_elders();
    let r = node.send_messages_to_all_nodes_or_directly_handle_for_accumulation(vec![peer(1, 50), peer(2, 50)], frame(AuthKind::Node));
    assert!(matches!(r, Err(Error::SendOrHandlingNormalMsg)));
    let cmds = node
        .send_messages_to_all_nodes_or_directly_handle_for_accumulation(vec![peer(1, 50), peer(2, 50)], frame(AuthKind::NodeBlsShare))
        .unwrap();
    assert_eq!(cmds.len(), 2);
    assert!(matches!(cmds[0], Cmd::SendBytes { .. }));
    match &cmds[1] {
        Cmd::HandleMsg { wire_msg, .. } => assert_eq!(wire_msg.dst_name, name(1)),
        _ => panic!("expected local handling"),
    }
    let only_others = node.send_messages_to_all_nodes_or_directly_handle_for_accumulation(vec![peer(3, 50)], frame(AuthKind::Node)).unwrap();
    assert_eq!(only_others.len(), 1);
}

#[test]
fn share_signed_messages_wait_for_aggregation() {
    let (sks, mut node) = four_elders();
    let payload = b"frame payload".to_vec();
    let mut auth = MsgAuthority::BlsShare(share_of(&sks, 1, &payload));
    assert_eq!(node.aggregate_msg_and_stop(&mut auth, &payload).unwrap(), true);
    let mut auth = MsgAuthority::BlsShare(share_of(&sks, 2, &payload));
    assert_eq!(node.aggregate_msg_and_stop(&mut auth, &payload).unwrap(), true);
    let mut auth = MsgAuthority::BlsShare(share_of(&sks, 3, &payload));
    assert_eq!(node.aggregate_msg_and_stop(&mut auth, &payload).unwrap(), false);
    assert!(matches!(auth, MsgAuthority::Section(_)));
    let mut plain = MsgAuthority::Node(KeyedSig { public_key: name(1), signature: vec![] });
    assert_eq!(node.aggregate_msg_and_stop(&mut plain, &payload).unwrap(), false);
}

#[test]
fn connectivity_test_only_by_elders() {
    let (_sks, mut node) = four_elders();
    let cmds = node.handle_valid_msg(NodeMsg::StartConnectivityTest(name(9)), peer(2, 50), 0).unwrap();
    assert!(matches!(&cmds[..], [Cmd::TestConnectivity(n)] if *n == name(9)));
    node.name = name(0x55);
    let cmds = node.handle_valid_msg(NodeMsg::StartConnectivityTest(name(9)), peer(2, 50), 0).unwrap();
    assert!(cmds.is_empty());
    assert!(node.handle_valid_msg(NodeMsg::AntiEntropyProbe, peer(2, 50), 0).unwrap().is_empty());
}

#[test]
fn full_node_reopens_joins() {
    let (_sks, mut node) = four_elders();
    node.joins_allowed = false;
    assert!(!node.record_storage_level(&name(9), 3));
    assert!(!node.joins_allowed);
    assert!(node.record_storage_level(&name(9), sn_node::node::MIN_LEVEL_WHEN_FULL));
    assert!(node.joins_allowed);
}

#[test]
fn key_section_replica_follows_elder_changes() {
    let sks = blsttc::SecretKeySet::random(1, &mut rand::thread_rng());
    let key = sks.public_keys().public_key().to_bytes().to_vec();
    let share = sks.secret_key_share(1usize);
    let state = ElderState {
        key_index: 1,
        public_key_set: sks.public_keys().to_bytes(),
        secret_key_share: share.to_bytes().to_vec(),
        section_proof_chain: SectionChain::new(key.clone()),
        prefix: Prefix::root(),
    };
    let mut ks = KeySection::new(state).unwrap();
    assert!(ks.replica_info.initiating);
    assert_eq!(ks.replica_info.id, share.public_key_share().to_bytes().to_vec());
    assert_eq!(ks.set_node_join_flag(false).unwrap(), NodeOperation::NoOp);
    assert!(!ks.joins_allowed);
    let next = ElderState {
        key_index: 2,
        public_key_set: sks.public_keys().to_bytes(),
        secret_key_share: sks.secret_key_share(2usize).to_bytes().to_vec(),
        section_proof_chain: SectionChain::new(key),
        prefix: Prefix::root(),
    };
    ks.elders_changed(next).unwrap();
    assert!(!ks.replica_info.initiating);
    assert_eq!(ks.replica_info.key_index, 2);
    ks.increase_full_node_count(&name(3)).unwrap();
    ks.increase_full_node_count(&name(3)).unwrap();
    assert_eq!(ks.full_nodes.len(), 1);
    ks.split_section(Prefix::root().pushed(true)).unwrap();
    assert_eq!(ks.elder_state.prefix.bits, vec![true]);
}

#[test]
fn unreachable_member_is_voted_offline() {
    let (sks, mut node) = four_elders();
    join(&mut node, &sks, peer(9, 12));
    assert!(node.handle_connectivity_result(&name(9), true).is_empty());
    assert!(node.handle_connectivity_result(&name(10), false).is_empty());
    let cmds = node.handle_connectivity_result(&name(9), false);
    assert!(matches!(&cmds[..], [Cmd::ProposeVoteNodesOffline(names)] if *names == vec![name(9)]));
    let follow = node.process_cmd(cmds.into_iter().next().unwrap()).unwrap();
    assert!(follow.iter().any(|c| matches!(c, Cmd::SendMsg { msg: NodeMsg::ProposeNodeOff { proposal, .. }, .. }
        if proposal.peer.name == name(9) && matches!(proposal.state, MembershipState::Left))));
}

#[test]
fn routing_keeps_recipient_order() {
    let (_sks, node) = four_elders();
    let cmds = node
        .send_messages_to_all_nodes_or_directly_handle_for_accumulation(vec![peer(4, 50), peer(2, 50), peer(3, 50)], frame(AuthKind::Node))
        .unwrap();
    match &cmds[0] {
        Cmd::SendBytes { recipients, .. } => {
            let names: Vec<Vec<u8>> = recipients.iter().map(|p| p.name.clone()).collect();
            assert_eq!(names, vec![name(4), name(2), name(3)]);
        },
        _ => panic!("expected a send"),
    }
}

#[test]
fn data_is_queued_for_replication() {
    let (_sks, mut node) = four_elders();
    let cmd = Cmd::EnqueueDataForReplication { recipient: name(7), data_batch: vec![vec![1, 1], vec![2, 2]] };
    assert!(node.process_cmd(cmd).unwrap().is_empty());
    let cmd = Cmd::EnqueueDataForReplication { recipient: name(8), data_batch: vec![vec![1, 1]] };
    assert!(node.process_cmd(cmd).unwrap().is_empty());
    assert_eq!(node.pending_replication.len(), 2);
    assert_eq!(node.pending_replication[0].data, vec![1, 1]);
    assert_eq!(node.pending_replication[0].peers, vec![name(7), name(8)]);
    assert_eq!(node.pending_replication[1].peers, vec![name(7)]);
}

#[test]
fn unsigned_or_foreign_messages_are_dropped() {
    let (_sks, mut node) = four_elders();
    let payload = b"probe".to_vec();
    let sender = peer(2, 50);
    let forged = MsgAuthority::Node(KeyedSig { public_key: name(2), signature: vec![0u8; 64] });
    let cmds = node.handle_system_msg(sender.clone(), forged, NodeMsg::StartConnectivityTest(name(9)), &payload, 0).unwrap();
    assert!(cmds.is_empty());
    let stranger = blsttc::SecretKey::random();
    let foreign = MsgAuthority::Section(KeyedSig {
        public_key: stranger.public_key().to_bytes().to_vec(),
        signature: stranger.sign(&payload).to_bytes().to_vec(),
    });
    let cmds = node.handle_system_msg(sender, foreign, NodeMsg::StartConnectivityTest(name(9)), &payload, 0).unwrap();
    assert!(cmds.is_empty());
}

#[test]
fn section_signed_message_is_handled() {
    let (sks, mut node) = four_elders();
    let payload = b"start".to_vec();
    let auth = MsgAuthority::Section(KeyedSig {
        public_key: sks.public_keys().public_key().to_bytes().to_vec(),
        signature: sks.secret_key().sign(&payload).to_bytes().to_vec(),
    });
    let cmds = node.handle_system_msg(peer(2, 50), auth, NodeMsg::StartConnectivityTest(name(9)), &payload, 0).unwrap();
    assert!(matches!(&cmds[..], [Cmd::TestConnectivity(n)] if *n == name(9)));
}

#[test]
fn dkg_outcome_reaction_is_reported() {
    let (_sks, node) = four_elders();
    let session = sn_node::dkg::DkgSessionId { prefix: Prefix::root(), elders: vec![peer(1, 50), peer(2, 50)], generation: 3 };
    let reactions = vec![
        sn_node::dkg_engine::DkgReaction::WaitingForMoreVotes,
        sn_node::dkg_engine::DkgReaction::Complete { public_key_set: vec![7u8; 48], secret_key_share: vec![8u8; 32] },
    ];
    let cmds = sn_node::node::dkg_reactions(&session, reactions);
    assert_eq!(cmds.len(), 1);
    match &cmds[0] {
        Cmd::DkgOutcome { public_key_set, secret_key_share, .. } => {
            assert_eq!(*public_key_set, vec![7u8; 48]);
            assert_eq!(*secret_key_share, vec![8u8; 32]);
        },
        _ => panic!("expected an outcome"),
    }
    let _ = node;
}
