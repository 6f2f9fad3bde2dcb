use sn_node::name::{bit, cmp_distance, Prefix};
use sn_node::wire::{AuthKind, WireMsg};
use sn_node::{supermajority, threshold};

#[test]
fn quorum_sizes() {
    assert_eq!(supermajority(7), 5);
    assert_eq!(supermajority(4), 3);
    assert_eq!(supermajority(3), 3);
    assert_eq!(supermajority(1), 1);
    assert_eq!(supermajority(0), 1);
    assert_eq!(threshold(7), 4);
    assert_eq!(threshold(4), 2);
    assert_eq!(supermajority(usize::MAX), usize::MAX / 3 * 2 + 1);
}

#[test]
fn prefix_operations() {
    let root = Prefix::root();
    let one = root.pushed(true);
    let one_zero = one.pushed(false);
    let name = {
        let mut v = vec![0u8; 32];
        v[0] = 0b1011_0000;
        v
    };
    assert!(root.matches(&name));
    assert!(one.matches(&name));
    assert!(one_zero.matches(&name));
    assert!(!one.pushed(true).matches(&name));
    assert!(one_zero.is_extension_of(&one));
    assert!(one_zero.is_extension_of(&root));
    assert!(!one.is_extension_of(&one));
    assert!(!root.is_extension_of(&one));
    assert_eq!(one_zero.bit_count(), 2);
    assert!(bit(&name, 0));
    assert!(!bit(&name, 1));
    assert!(bit(&name, 2));
    assert!(!bit(&name, 300));
    let mut full = Prefix::root();
    for _ in 0..300 {
        full = full.pushed(true);
    }
    assert_eq!(full.bit_count(), 256);
    let mut expected = vec![0u8; 32];
    expected[0] = 0b1000_0000;
    assert_eq!(one.name(), expected);
}

#[test]
fn xor_distance_order() {
    let target = vec![0u8; 32];
    let mut a = vec![0u8; 32];
    a[1] = 1;
    let mut b = vec![0u8; 32];
    b[0] = 1;
    assert_eq!(cmp_distance(&target, &a, &b), -1);
    assert_eq!(cmp_distance(&target, &b, &a), 1);
    assert_eq!(cmp_distance(&target, &a, &a), 0);
    let far = vec![0xFFu8; 32];
    assert_eq!(cmp_distance(&far, &a, &b), 1);
}

fn frame() -> WireMsg {
    WireMsg {
        msg_id: (0..16).collect(),
        src_name: vec![1u8; 32],
        dst_name: vec![2u8; 32],
        dst_section_key: vec![3u8; 48],
        auth: AuthKind::Section,
        payload_kind: 7,
        payload: b"hello".to_vec(),
    }
}

#[test]
fn wire_round_trip() {
    let m = frame();
    let bytes = m.serialize();
    assert_eq!(bytes.len(), 130 + 5);
    let back = WireMsg::deserialize(&bytes).unwrap();
    assert_eq!(back.msg_id, m.msg_id);
    assert_eq!(back.src_name, m.src_name);
    assert_eq!(back.dst_name, m.dst_name);
    assert_eq!(back.dst_section_key, m.dst_section_key);
    assert_eq!(back.auth, AuthKind::Section);
    assert_eq!(back.payload_kind, 7);
    assert_eq!(back.payload, b"hello".to_vec());
    assert_eq!(back.serialize(), bytes);
}

#[test]
fn wire_rejects_bad_frames() {
    let bytes = frame().serialize();
    assert!(WireMsg::deserialize(&bytes[..129].to_vec()).is_none());
    let mut bad = bytes.clone();
    bad[128] = 9;
    assert!(WireMsg::deserialize(&bad).is_none());
    let moved = frame().with_dst(&vec![8u8; 32], &vec![9u8; 48]);
    let back = WireMsg::deserialize(&moved.serialize()).unwrap();
    assert_eq!(back.dst_name, vec![8u8; 32]);
    assert_eq!(back.payload, b"hello".to_vec());
}
