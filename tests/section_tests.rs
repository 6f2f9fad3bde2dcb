use sn_node::ae::AeOutcome;
use sn_node::chain::{ChainError, SectionChain};
use sn_node::name::Prefix;
use sn_node::roster::SectionPeers;
use sn_node::sap::{KeyedSig, MembershipState, NodeState, Peer, SectionAuthorityProvider, SignedNodeState, SignedSap};
use sn_node::section::Section;
use sn_node::{ELDER_SIZE, RECOMMENDED_SECTION_SIZE};

fn name(first: u8) -> Vec<u8> {
    let mut v = vec![0u8; 32];
    v[0] = first;
    v
}

fn peer(first: u8, age: u8) -> Peer {
    Peer { name: name(first), addr: vec![127, 0, 0, 1, 0, first], age }
}

fn key_bytes(pk: &blsttc::PublicKey) -> Vec<u8> {
    pk.to_bytes().to_vec()
}

fn sign(sk: &blsttc::SecretKey, msg: &[u8]) -> Vec<u8> {
    sk.sign(msg).to_bytes().to_vec()
}

fn genesis(sks: &blsttc::SecretKeySet) -> Section {
    let (section, _share) = Section::first_node(
        peer(7, 5),
        sks.public_keys().to_bytes(),
        sks.secret_key_share(0usize).to_bytes().to_vec(),
    )
    .unwrap();
    section
}

fn add_member(section: &mut Section, sk: &blsttc::SecretKey, p: Peer) -> bool {
    let state = NodeState::joined(p);
    let signature = sign(sk, &state.to_bytes());
    section.update_member(SignedNodeState {
        value: state,
        sig: KeyedSig { public_key: key_bytes(&sk.public_key()), signature },
    })
}

#[test]
fn genesis_section() {
    let sks = blsttc::SecretKeySet::random(0, &mut rand::thread_rng());
    let section = genesis(&sks);
    let key = key_bytes(&sks.public_keys().public_key());
    assert_eq!(section.chain().len(), 1);
    assert_eq!(*section.genesis_key(), key);
    assert_eq!(*section.chain().root_key(), key);
    assert_eq!(*section.chain().last_key(), key);
    assert_eq!(section.section_auth.sig.public_key, key);
    let sap = section.authority_provider();
    assert_eq!(sap.elders.len(), 1);
    assert_eq!(sap.elders[0].age, 255);
    assert_eq!(sap.elders[0].name, name(7));
    assert_eq!(sap.prefix.bit_count(), 0);
    assert!(section.section_auth.self_verify());
    assert_eq!(section.members().members.len(), 1);
    assert!(section.members().is_joined(&name(7)));
    assert!(section.is_elder(&name(7)));
    assert!(!section.is_elder(&name(8)));
}

#[test]
fn genesis_with_malformed_key_set_fails() {
    let r = Section::first_node(peer(7, 5), vec![1, 2, 3], vec![0u8; 32]);
    assert!(matches!(r, Err(sn_node::error::Error::InvalidPayload)));
}

#[test]
fn new_section_checks_keys() {
    let sks = blsttc::SecretKeySet::random(0, &mut rand::thread_rng());
    let g = genesis(&sks);
    let other = blsttc::SecretKey::random();
    // the SAP is not signed with the chain's last key
    let r = Section::new(
        key_bytes(&other.public_key()),
        SectionChain::new(key_bytes(&other.public_key())),
        g.section_auth.clone(),
    );
    assert!(matches!(r, Err(sn_node::error::Error::UntrustedSectionAuthProvider)));
    // the genesis key is not the chain's root
    let key = key_bytes(&sks.public_keys().public_key());
    let r = Section::new(key_bytes(&other.public_key()), SectionChain::new(key.clone()), g.section_auth.clone());
    assert!(matches!(r, Err(sn_node::error::Error::UntrustedProofChain)));
    let r = Section::new(key.clone(), SectionChain::new(key), g.section_auth.clone());
    assert!(r.is_ok());
}

#[test]
fn chain_insert_and_errors() {
    let root = blsttc::SecretKey::random();
    let next = blsttc::SecretKey::random();
    let stranger = blsttc::SecretKey::random();
    let mut chain = SectionChain::new(key_bytes(&root.public_key()));
    let next_key = key_bytes(&next.public_key());
    let bad = chain.insert(&key_bytes(&root.public_key()), next_key.clone(), sign(&stranger, &next_key));
    assert_eq!(bad, Err(ChainError::InvalidSignature));
    let missing = chain.insert(&key_bytes(&stranger.public_key()), next_key.clone(), sign(&stranger, &next_key));
    assert_eq!(missing, Err(ChainError::KeyNotFound));
    assert_eq!(chain.len(), 1);
    let ok = chain.insert(&key_bytes(&root.public_key()), next_key.clone(), sign(&root, &next_key));
    assert_eq!(ok, Ok(()));
    assert_eq!(chain.len(), 2);
    assert_eq!(*chain.last_key(), next_key);
    assert!(chain.self_verify());
    assert!(chain.has_key(&next_key));
    // inserting a key that is already there changes nothing
    let again = chain.insert(&key_bytes(&root.public_key()), next_key.clone(), sign(&root, &next_key));
    assert_eq!(again, Ok(()));
    assert_eq!(chain.len(), 2);
}

#[test]
fn chain_merge() {
    let root = blsttc::SecretKey::random();
    let next = blsttc::SecretKey::random();
    let root_key = key_bytes(&root.public_key());
    let next_key = key_bytes(&next.public_key());
    let mut longer = SectionChain::new(root_key.clone());
    longer.insert(&root_key, next_key.clone(), sign(&root, &next_key)).unwrap();
    let mut short = SectionChain::new(root_key.clone());
    assert_eq!(short.merge(&longer), Ok(()));
    assert_eq!(short.len(), 2);
    assert_eq!(*short.last_key(), next_key);
    // merging a chain into itself, or merging again, changes nothing
    let copy = short.duplicate();
    assert_eq!(short.merge(&copy), Ok(()));
    assert_eq!(short.merge(&longer), Ok(()));
    assert_eq!(short.len(), 2);
    let foreign = SectionChain::new(key_bytes(&blsttc::SecretKey::random().public_key()));
    assert_eq!(short.merge(&foreign), Err(ChainError::Incompatible));
    assert_eq!(short.len(), 2);
}

#[test]
fn proof_chain_from_keys() {
    let root = blsttc::SecretKey::random();
    let a = blsttc::SecretKey::random();
    let b = blsttc::SecretKey::random();
    let (rk, ak, bk) = (key_bytes(&root.public_key()), key_bytes(&a.public_key()), key_bytes(&b.public_key()));
    let mut chain = SectionChain::new(rk.clone());
    chain.insert(&rk, ak.clone(), sign(&root, &ak)).unwrap();
    chain.insert(&ak, bk.clone(), sign(&a, &bk)).unwrap();
    let from_a = chain.proof_chain_from(&ak).unwrap();
    assert_eq!(from_a.len(), 2);
    assert_eq!(*from_a.root_key(), ak);
    assert_eq!(*from_a.last_key(), bk);
    assert!(from_a.self_verify());
    let from_root = chain.proof_chain_from(&rk).unwrap();
    assert_eq!(from_root.len(), 3);
    let unknown = key_bytes(&blsttc::SecretKey::random().public_key());
    assert!(matches!(chain.proof_chain_from(&unknown), Err(ChainError::KeyNotFound)));
}

#[test]
fn ae_retry_for_unknown_key() {
    let sks = blsttc::SecretKeySet::random(0, &mut rand::thread_rng());
    let section = genesis(&sks);
    let unknown = key_bytes(&blsttc::SecretKey::random().public_key());
    match section.validate_frame(&name(3), &unknown) {
        AeOutcome::Retry { signed_sap, proof_chain } => {
            assert_eq!(proof_chain.root_key(), section.genesis_key());
            assert_eq!(proof_chain.last_key(), &section.section_auth.sig.public_key);
            assert_eq!(signed_sap.sig.public_key, section.section_auth.sig.public_key);
        },
        _ => panic!("expected a retry"),
    }
    let current = section.section_auth.sig.public_key.clone();
    assert!(matches!(section.validate_frame(&name(3), &current), AeOutcome::Accept));
}

fn signed_sap(prefix: Prefix, sks: &blsttc::SecretKeySet, elders: Vec<Peer>) -> SignedSap {
    let sap = SectionAuthorityProvider { prefix, public_key_set: sks.public_keys().to_bytes(), elders };
    let signature = sign(&sks.secret_key(), &sap.to_bytes());
    SignedSap { value: sap, sig: KeyedSig { public_key: key_bytes(&sks.public_keys().public_key()), signature } }
}

#[test]
fn ae_redirect_outside_prefix() {
    let sks = blsttc::SecretKeySet::random(0, &mut rand::thread_rng());
    let key = key_bytes(&sks.public_keys().public_key());
    let sap = signed_sap(Prefix::root().pushed(true), &sks, vec![peer(0x80, 10)]);
    let section = Section::new(key.clone(), SectionChain::new(key.clone()), sap).unwrap();
    // 0x00 starts with a 0 bit: not under prefix "1"
    assert!(matches!(section.validate_frame(&name(0x00), &key), AeOutcome::Redirect { .. }));
    assert!(matches!(section.validate_frame(&name(0x80), &key), AeOutcome::Accept));
}

#[test]
fn update_elders_accepts_signed_successor() {
    let first = blsttc::SecretKeySet::random(0, &mut rand::thread_rng());
    let mut section = genesis(&first);
    let next = blsttc::SecretKeySet::random(0, &mut rand::thread_rng());
    let new_sap = signed_sap(Prefix::root(), &next, vec![peer(7, 255), peer(9, 20)]);
    let next_key = key_bytes(&next.public_keys().public_key());
    let bad_sig = KeyedSig {
        public_key: key_bytes(&first.public_keys().public_key()),
        signature: sign(&blsttc::SecretKey::random(), &next_key),
    };
    assert!(!section.update_elders(new_sap.clone(), bad_sig));
    assert_eq!(section.chain().len(), 1);
    let key_sig = KeyedSig {
        public_key: key_bytes(&first.public_keys().public_key()),
        signature: sign(&first.secret_key(), &next_key),
    };
    assert!(section.update_elders(new_sap, key_sig));
    assert_eq!(section.chain().len(), 2);
    assert_eq!(section.section_auth.sig.public_key, next_key);
    assert_eq!(*section.chain().last_key(), next_key);
    assert!(section.chain().self_verify());
    assert_eq!(section.authority_provider().elders.len(), 2);
}

#[test]
fn update_elders_rejects_unrelated_prefix() {
    let sks = blsttc::SecretKeySet::random(0, &mut rand::thread_rng());
    let key = key_bytes(&sks.public_keys().public_key());
    let sap = signed_sap(Prefix::root().pushed(true), &sks, vec![peer(0x80, 10)]);
    let mut section = Section::new(key.clone(), SectionChain::new(key.clone()), sap).unwrap();
    let next = blsttc::SecretKeySet::random(0, &mut rand::thread_rng());
    let next_key = key_bytes(&next.public_keys().public_key());
    let other_half = signed_sap(Prefix::root().pushed(false), &next, vec![peer(0x01, 10)]);
    let key_sig = KeyedSig { public_key: key.clone(), signature: sign(&sks.secret_key(), &next_key) };
    assert!(!section.update_elders(other_half, key_sig));
    assert_eq!(section.chain().len(), 1);
}

#[test]
fn roster_update_rules() {
    let sks = blsttc::SecretKeySet::random(0, &mut rand::thread_rng());
    let mut section = genesis(&sks);
    let sk = sks.secret_key();
    assert!(add_member(&mut section, &sk, peer(9, 6)));
    // the same state again changes nothing
    assert!(!add_member(&mut section, &sk, peer(9, 6)));
    // an older age replaces a younger one, not the reverse
    assert!(add_member(&mut section, &sk, peer(9, 8)));
    assert!(!add_member(&mut section, &sk, peer(9, 7)));
    let left = NodeState { peer: peer(9, 8), state: MembershipState::Left };
    let signature = sign(&sk, &left.to_bytes());
    let signed = SignedNodeState { value: left, sig: KeyedSig { public_key: key_bytes(&sk.public_key()), signature } };
    assert!(section.update_member(signed.clone()));
    assert!(!section.update_member(signed));
    assert!(!section.members().is_joined(&name(9)));
    // a Left member does not come back as Joined
    assert!(!add_member(&mut section, &sk, peer(9, 30)));
    // states signed by a key outside the chain are refused
    assert!(!add_member(&mut section, &blsttc::SecretKey::random(), peer(10, 6)));
    // names must be full length
    let mut short = peer(11, 6);
    short.name = vec![1, 2, 3];
    assert!(!add_member(&mut section, &sk, short));
}

#[test]
fn merge_members_keeps_prefix() {
    let sks = blsttc::SecretKeySet::random(0, &mut rand::thread_rng());
    let key = key_bytes(&sks.public_keys().public_key());
    let sap = signed_sap(Prefix::root().pushed(true), &sks, vec![peer(0x80, 10)]);
    let mut section = Section::new(key.clone(), SectionChain::new(key.clone()), sap).unwrap();
    let sk = sks.secret_key();
    let mut incoming = SectionPeers::new();
    for first in [0x81u8, 0x01, 0xC0] {
        let state = NodeState::joined(peer(first, 6));
        let signature = sign(&sk, &state.to_bytes());
        incoming.update(SignedNodeState { value: state, sig: KeyedSig { public_key: key.clone(), signature } });
    }
    section.merge_members(Some(incoming));
    let names: Vec<Vec<u8>> = section.members().members.iter().map(|m| m.value.peer.name.clone()).collect();
    assert_eq!(names, vec![name(0x81), name(0xC0)]);
}

#[test]
fn split_into_sibling_halves() {
    let sks = blsttc::SecretKeySet::random(0, &mut rand::thread_rng());
    let mut section = genesis(&sks);
    let sk = sks.secret_key();
    for i in 0..RECOMMENDED_SECTION_SIZE as u8 {
        assert!(add_member(&mut section, &sk, peer(0x10 + i, 10)));
        assert!(add_member(&mut section, &sk, peer(0x90 + i, 10)));
    }
    let our_name = name(0x10);
    let cands = section.promote_and_demote_elders(&our_name, &vec![]);
    assert_eq!(cands.len(), 2);
    assert_eq!(cands[0].prefix.bits, vec![false]);
    assert_eq!(cands[1].prefix.bits, vec![true]);
    assert_eq!(cands[0].elders.len(), ELDER_SIZE);
    assert_eq!(cands[1].elders.len(), ELDER_SIZE);
    assert!(cands[0].elders.iter().all(|p| cands[0].prefix.matches(&p.name)));
    assert!(cands[1].elders.iter().all(|p| cands[1].prefix.matches(&p.name)));
    // the genesis node is the oldest on our side, so it leads
    assert_eq!(cands[0].elders[0].name, name(7));
}

#[test]
fn no_split_with_too_few_members() {
    let sks = blsttc::SecretKeySet::random(0, &mut rand::thread_rng());
    let mut section = genesis(&sks);
    let sk = sks.secret_key();
    for i in 0..RECOMMENDED_SECTION_SIZE as u8 {
        assert!(add_member(&mut section, &sk, peer(0x10 + i, 10)));
    }
    assert!(section.try_split(&name(0x10), &vec![]).is_none());
    let cands = section.promote_and_demote_elders(&name(0x10), &vec![]);
    assert_eq!(cands.len(), 1);
    assert_eq!(cands[0].elders.len(), ELDER_SIZE);
    // excluding names changes the choice
    let excluded = vec![name(0x10), name(0x11)];
    let fewer = section.promote_and_demote_elders(&name(0x10), &excluded);
    assert!(fewer[0].elders.iter().all(|p| p.name != name(0x10) && p.name != name(0x11)));
}

#[test]
fn candidates_ignore_member_order() {
    let sks = blsttc::SecretKeySet::random(0, &mut rand::thread_rng());
    let section = {
        let mut s = genesis(&sks);
        let sk = sks.secret_key();
        for (i, age) in [(1u8, 9u8), (2, 12), (3, 9), (4, 30), (5, 7), (6, 9), (0x40, 9), (0x41, 12), (0x42, 6)] {
            add_member(&mut s, &sk, peer(i, age));
        }
        s
    };
    let mut reversed = section.members().clone();
    reversed.members.reverse();
    let sap = section.authority_provider();
    let a = section.members().elder_candidates(ELDER_SIZE, sap, &vec![]);
    let b = reversed.elder_candidates(ELDER_SIZE, sap, &vec![]);
    let names_a: Vec<Vec<u8>> = a.iter().map(|p| p.name.clone()).collect();
    let names_b: Vec<Vec<u8>> = b.iter().map(|p| p.name.clone()).collect();
    assert_eq!(names_a, names_b);
    // oldest first; the current Elder (age 255) leads
    assert_eq!(names_a[0], name(7));
    assert_eq!(names_a[1], name(4));
    // equal ages: closer to the prefix's name (all zeros) first
    assert_eq!(names_a[2], name(2));
    assert_eq!(names_a[3], name(0x41));
}

#[test]
fn adults_and_active_members() {
    let sks = blsttc::SecretKeySet::random(0, &mut rand::thread_rng());
    let mut section = genesis(&sks);
    let sk = sks.secret_key();
    add_member(&mut section, &sk, peer(1, 9));
    add_member(&mut section, &sk, peer(2, 1));
    let adults: Vec<Vec<u8>> = section.adults().iter().map(|p| p.name.clone()).collect();
    assert_eq!(adults, vec![name(1), name(2)]);
    let live: Vec<Vec<u8>> = section.live_adults().iter().map(|p| p.name.clone()).collect();
    assert_eq!(live, vec![name(1), name(2)]);
    assert_eq!(section.active_members().len(), 3);
    let found = section.find_joined_member_by_addr(&vec![127, 0, 0, 1, 0, 2]).unwrap();
    assert_eq!(found.name, name(2));
    assert!(section.find_joined_member_by_addr(&vec![1, 1, 1, 1]).is_none());
}

#[test]
fn ae_update_twice_is_a_no_op() {
    let first = blsttc::SecretKeySet::random(0, &mut rand::thread_rng());
    let mut behind = genesis(&first);
    let mut ahead = genesis(&first);
    // the same genesis keys, so the same chain root
    assert_eq!(behind.genesis_key(), ahead.genesis_key());
    let next = blsttc::SecretKeySet::random(0, &mut rand::thread_rng());
    let new_sap = signed_sap(Prefix::root(), &next, vec![peer(7, 255)]);
    let next_key = key_bytes(&next.public_keys().public_key());
    let key_sig = KeyedSig {
        public_key: key_bytes(&first.public_keys().public_key()),
        signature: sign(&first.secret_key(), &next_key),
    };
    assert!(ahead.update_elders(new_sap, key_sig));
    assert!(add_member(&mut ahead, &next.secret_key(), peer(9, 6)));
    let sap = ahead.section_auth.clone();
    let chain = ahead.chain().duplicate();
    assert!(behind.handle_ae_update(&sap, &chain, Some(ahead.members().clone())).is_ok());
    assert_eq!(behind.chain().len(), 2);
    assert_eq!(behind.section_auth.sig.public_key, next_key);
    assert!(behind.members().is_joined(&name(9)));
    let members_once = behind.members().members.len();
    assert!(behind.handle_ae_update(&sap, &chain, Some(ahead.members().clone())).is_ok());
    assert_eq!(behind.chain().len(), 2);
    assert_eq!(behind.members().members.len(), members_once);
    assert_eq!(behind.section_auth.sig.public_key, next_key);
}

#[test]
fn ae_update_with_foreign_chain_fails() {
    let sks = blsttc::SecretKeySet::random(0, &mut rand::thread_rng());
    let mut section = genesis(&sks);
    let other = blsttc::SecretKeySet::random(0, &mut rand::thread_rng());
    let foreign = genesis(&other);
    let r = section.handle_ae_update(&foreign.section_auth, foreign.chain(), None);
    assert!(matches!(r, Err(sn_node::error::Error::UntrustedProofChain)));
    assert_eq!(section.chain().len(), 1);
}

#[test]
fn peers_sorted_by_distance() {
    let peers = vec![peer(0x40, 1), peer(0x01, 1), peer(0xF0, 1), peer(0x02, 1)];
    let sorted = sn_node::roster::sort_by_distance(peers.clone(), &name(0x00));
    let names: Vec<Vec<u8>> = sorted.iter().map(|p| p.name.clone()).collect();
    assert_eq!(names, vec![name(0x01), name(0x02), name(0x40), name(0xF0)]);
    let sorted = sn_node::roster::sort_by_distance(peers, &name(0xF3));
    let names: Vec<Vec<u8>> = sorted.iter().map(|p| p.name.clone()).collect();
    assert_eq!(names, vec![name(0xF0), name(0x40), name(0x02), name(0x01)]);
}

#[test]
fn joiner_adopts_bootstrap_knowledge() {
    let sks = blsttc::SecretKeySet::random(0, &mut rand::thread_rng());
    let mut bootstrap = genesis(&sks);
    // the joiner starts from the SAP and chain its bootstrap contact hands over
    let joiner = Section::new(
        bootstrap.genesis_key().clone(),
        bootstrap.chain().duplicate(),
        bootstrap.section_auth.clone(),
    )
    .unwrap();
    assert_eq!(joiner.section_auth.sig.public_key, bootstrap.section_auth.sig.public_key);
    assert_eq!(joiner.authority_provider().elders[0].name, bootstrap.authority_provider().elders[0].name);
    assert_eq!(joiner.prefix().bits, bootstrap.prefix().bits);
    // the bootstrap section records the new member once it is signed for
    assert!(add_member(&mut bootstrap, &sks.secret_key(), peer(0x33, 5)));
    assert!(bootstrap.members().is_joined(&name(0x33)));
}

#[test]
fn empty_elder_set_is_rejected() {
    let sks = blsttc::SecretKeySet::random(0, &mut rand::thread_rng());
    let key = key_bytes(&sks.public_keys().public_key());
    let empty = signed_sap(Prefix::root(), &sks, vec![]);
    let r = Section::new(key.clone(), SectionChain::new(key.clone()), empty);
    assert!(matches!(r, Err(sn_node::error::Error::UntrustedSectionAuthProvider)));
    let mut section = genesis(&sks);
    let next = blsttc::SecretKeySet::random(0, &mut rand::thread_rng());
    let next_key = key_bytes(&next.public_keys().public_key());
    let key_sig = KeyedSig { public_key: key.clone(), signature: sign(&sks.secret_key(), &next_key) };
    assert!(!section.update_elders(signed_sap(Prefix::root(), &next, vec![]), key_sig));
    assert_eq!(section.chain().len(), 1);
}

#[test]
fn unknown_key_gets_retry_even_outside_prefix() {
    let sks = blsttc::SecretKeySet::random(0, &mut rand::thread_rng());
    let key = key_bytes(&sks.public_keys().public_key());
    let sap = signed_sap(Prefix::root().pushed(true), &sks, vec![peer(0x80, 10)]);
    let section = Section::new(key.clone(), SectionChain::new(key.clone()), sap).unwrap();
    let unknown = key_bytes(&blsttc::SecretKey::random().public_key());
    match section.validate_frame(&name(0x00), &unknown) {
        AeOutcome::Retry { proof_chain, .. } => assert_eq!(*proof_chain.root_key(), key),
        _ => panic!("expected a retry"),
    }
}

#[test]
fn bad_sap_signature_and_bad_link_errors() {
    let sks = blsttc::SecretKeySet::random(0, &mut rand::thread_rng());
    let key = key_bytes(&sks.public_keys().public_key());
    let mut sap = signed_sap(Prefix::root(), &sks, vec![peer(1, 10)]);
    sap.sig.signature = sign(&blsttc::SecretKey::random(), b"other");
    let r = Section::new(key.clone(), SectionChain::new(key.clone()), sap);
    assert!(matches!(r, Err(sn_node::error::Error::UntrustedSectionAuthProvider)));
    // a chain whose link does not verify
    let next = blsttc::SecretKeySet::random(0, &mut rand::thread_rng());
    let next_key = key_bytes(&next.public_keys().public_key());
    let chain = SectionChain {
        keys: vec![key.clone(), next_key.clone()],
        parents: vec![0, 0],
        sigs: vec![vec![], sign(&blsttc::SecretKey::random(), &next_key)],
    };
    let sap = signed_sap(Prefix::root(), &next, vec![peer(1, 10)]);
    let r = Section::new(key.clone(), chain, sap);
    assert!(matches!(r, Err(sn_node::error::Error::UntrustedProofChain)));
}

#[test]
fn member_outside_prefix_is_refused() {
    let sks = blsttc::SecretKeySet::random(0, &mut rand::thread_rng());
    let key = key_bytes(&sks.public_keys().public_key());
    let sap = signed_sap(Prefix::root().pushed(true), &sks, vec![peer(0x80, 10)]);
    let mut section = Section::new(key.clone(), SectionChain::new(key), sap).unwrap();
    assert!(!add_member(&mut section, &sks.secret_key(), peer(0x01, 6)));
    assert!(add_member(&mut section, &sks.secret_key(), peer(0x81, 6)));
    assert_eq!(section.members().members.len(), 1);
}
