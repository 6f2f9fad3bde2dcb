use ed25519_dalek::Signer;
use sn_node::dkg::{check_key, DkgSessionId, DkgVoter};
use sn_node::error::Error;
use sn_node::name::Prefix;
use sn_node::sap::Peer;

fn identity(seed: u8) -> (Vec<u8>, ed25519_dalek::Keypair) {
    let secret = ed25519_dalek::SecretKey::from_bytes(&[seed; 32]).unwrap();
    let public: ed25519_dalek::PublicKey = (&secret).into();
    (public.to_bytes().to_vec(), ed25519_dalek::Keypair { secret, public })
}

fn session(names: &[Vec<u8>]) -> DkgSessionId {
    let elders = names
        .iter()
        .map(|n| Peer { name: n.clone(), addr: vec![10, 0, 0, 1], age: 10 })
        .collect();
    DkgSessionId { prefix: Prefix::root(), elders, generation: 1 }
}

fn ephemeral() -> Vec<u8> {
    blsttc::SecretKey::random().public_key().to_bytes().to_vec()
}

#[test]
fn double_key_is_detected() {
    let (a, kp_a) = identity(1);
    let (b, kp_b) = identity(2);
    let s = session(&[a.clone(), b.clone()]);
    let mut voter = DkgVoter::new();
    let secret = blsttc::SecretKey::random().to_bytes().to_vec();
    let (our_key, our_sig) = voter.gen_ephemeral_key(&s.hash(), &a, &kp_a.to_bytes().to_vec(), secret).unwrap();
    assert_eq!(our_key.len(), 48);
    assert_eq!(our_sig.len(), 64);
    let key1 = ephemeral();
    let sig1 = kp_b.sign(&key1).to_bytes().to_vec();
    assert_eq!(voter.save_key(&s, &b, &key1, &sig1, 5).unwrap(), true);
    assert_eq!(voter.last_received_dkg_message(), Some(5));
    // the same key again is accepted and completes nothing new
    assert_eq!(voter.save_key(&s, &b, &key1, &sig1, 6).unwrap(), true);
    let key2 = ephemeral();
    let sig2 = kp_b.sign(&key2).to_bytes().to_vec();
    match voter.save_key(&s, &b, &key2, &sig2, 7) {
        Err(Error::DoubleKeyAttackDetected { owner, new_key, new_sig, old_key, old_sig }) => {
            assert_eq!(owner, b);
            assert_eq!(new_key, key2);
            assert_eq!(new_sig, sig2);
            assert_eq!(old_key, key1);
            assert_eq!(old_sig, sig1);
        },
        other => panic!("expected a double key attack, got {:?}", other.map(|_| ())),
    }
    // the session is abandoned
    voter.remove(&s.hash());
    assert!(matches!(voter.get_dkg_keys(&s), Err(Error::NoDkgKeysForSession)));
}

#[test]
fn ephemeral_key_is_kept_per_session() {
    let (a, kp_a) = identity(1);
    let s = session(&[a.clone()]);
    let mut voter = DkgVoter::new();
    let first = voter
        .gen_ephemeral_key(&s.hash(), &a, &kp_a.to_bytes().to_vec(), blsttc::SecretKey::random().to_bytes().to_vec())
        .unwrap();
    let second = voter
        .gen_ephemeral_key(&s.hash(), &a, &kp_a.to_bytes().to_vec(), blsttc::SecretKey::random().to_bytes().to_vec())
        .unwrap();
    assert_eq!(first, second);
    // the key is the public key of the secret, signed by our identity
    let sk = blsttc::SecretKey::random();
    let other = session(&[a.clone(), identity(9).0]);
    let (key, sig) = voter.gen_ephemeral_key(&other.hash(), &a, &kp_a.to_bytes().to_vec(), sk.to_bytes().to_vec()).unwrap();
    assert_eq!(key, sk.public_key().to_bytes().to_vec());
    assert_eq!(sig, kp_a.sign(&key).to_bytes().to_vec());
}

#[test]
fn check_key_errors() {
    let (a, _) = identity(1);
    let (b, kp_b) = identity(2);
    let (c, kp_c) = identity(3);
    let s = session(&[a.clone(), b.clone()]);
    let key = ephemeral();
    assert!(check_key(&s, &b, &key, &kp_b.sign(&key).to_bytes().to_vec()).is_ok());
    assert!(matches!(check_key(&s, &b, &key, &kp_c.sign(&key).to_bytes().to_vec()), Err(Error::InvalidSignature)));
    match check_key(&s, &c, &key, &kp_c.sign(&key).to_bytes().to_vec()) {
        Err(Error::NodeNotInDkgSession(n)) => assert_eq!(n, c),
        _ => panic!("expected NodeNotInDkgSession"),
    }
    let mut voter = DkgVoter::new();
    assert!(matches!(
        voter.save_key(&s, &b, &key, &kp_b.sign(&key).to_bytes().to_vec(), 1),
        Err(Error::NoDkgKeysForSession)
    ));
}

#[test]
fn complete_keys_start_the_vote_phase() {
    let (a, kp_a) = identity(1);
    let (b, kp_b) = identity(2);
    let s = session(&[a.clone(), b.clone()]);
    let mut voter = DkgVoter::new();
    voter
        .gen_ephemeral_key(&s.hash(), &a, &kp_a.to_bytes().to_vec(), blsttc::SecretKey::random().to_bytes().to_vec())
        .unwrap();
    assert!(matches!(voter.get_all_votes(&s), Err(Error::NoDkgStateForSession)));
    let key_b = ephemeral();
    let sig_b = kp_b.sign(&key_b).to_bytes().to_vec();
    let started = voter.try_init_dkg(&s, 0, &key_b, &sig_b, &b, 3).unwrap();
    let (_vote, keys) = started.expect("keys are complete");
    assert_eq!(keys.len(), 2);
    assert_eq!(voter.get_all_votes(&s).unwrap().len(), 1);
}

#[test]
fn session_hash_depends_on_generation() {
    let (a, _) = identity(1);
    let s1 = session(&[a.clone()]);
    let mut s2 = session(&[a.clone()]);
    s2.generation = 2;
    assert_eq!(s1.hash().len(), 32);
    assert_eq!(s1.hash(), session(&[a.clone()]).hash());
    assert_ne!(s1.hash(), s2.hash());
    assert_eq!(s1.elder_index(&a), Some(0));
    assert_eq!(s1.elder_index(&identity(5).0), None);
}

#[test]
fn incomplete_keys_wait_and_map_to_positions() {
    let (a, kp_a) = identity(1);
    let (b, kp_b) = identity(2);
    let (c, _) = identity(3);
    let s = session(&[a.clone(), b.clone(), c.clone()]);
    let mut voter = DkgVoter::new();
    voter
        .gen_ephemeral_key(&s.hash(), &a, &kp_a.to_bytes().to_vec(), blsttc::SecretKey::random().to_bytes().to_vec())
        .unwrap();
    let key_b = ephemeral();
    let sig_b = kp_b.sign(&key_b).to_bytes().to_vec();
    assert!(voter.try_init_dkg(&s, 0, &key_b, &sig_b, &b, 1).unwrap().is_none());
    let keys = voter.get_dkg_keys(&s).unwrap();
    let map = sn_node::dkg::dkg_key_map(&s, &keys).unwrap();
    assert_eq!(map.len(), 2);
    assert_eq!(map[0].0, 0);
    assert_eq!(map[1], (1u8, key_b));
}
