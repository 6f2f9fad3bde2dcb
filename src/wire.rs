//! The wire frame: a fixed header (message id, source name, destination
//! name and section key, authority kind, payload kind) and the payload.

use crate::bytes::{copy_bytes, push_all};
use vstd::prelude::*;

verus! {

pub const MSG_ID_LEN: usize = 16;
pub const KEY_LEN: usize = 48;
/// Bytes before the payload.
pub const HEADER_LEN: usize = 130;

/// How a message is authorised.
#[derive(Clone, Copy, Debug, PartialEq, Eq, Structural)]
pub enum AuthKind {
    Node,
    NodeBlsShare,
    Section,
    Service,
}

pub open spec fn auth_tag(a: AuthKind) -> u8 {
    match a {
        AuthKind::Node => 0u8,
        AuthKind::NodeBlsShare => 1u8,
        AuthKind::Section => 2u8,
        AuthKind::Service => 3u8,
    }
}

pub open spec fn auth_of_tag(t: u8) -> Option<AuthKind> {
    if t == 0 {
        Some(AuthKind::Node)
    } else if t == 1 {
        Some(AuthKind::NodeBlsShare)
    } else if t == 2 {
        Some(AuthKind::Section)
    } else if t == 3 {
        Some(AuthKind::Service)
    } else {
        None
    }
}

/// What the library reads of a frame.
pub struct WireView {
    pub msg_id: Seq<u8>,
    pub src_name: Seq<u8>,
    pub dst_name: Seq<u8>,
    pub dst_section_key: Seq<u8>,
    pub auth: AuthKind,
    pub payload_kind: u8,
    pub payload: Seq<u8>,
}

/// A frame.
#[derive(Clone, Debug)]
pub struct WireMsg {
    pub msg_id: Vec<u8>,
    pub src_name: Vec<u8>,
    pub dst_name: Vec<u8>,
    pub dst_section_key: Vec<u8>,
    pub auth: AuthKind,
    pub payload_kind: u8,
    pub payload: Vec<u8>,
}

/// The header fields have their fixed lengths.
pub open spec fn wire_valid(m: WireView) -> bool {
    &&& m.msg_id.len() == MSG_ID_LEN
    &&& m.src_name.len() == crate::name::NAME_LEN
    &&& m.dst_name.len() == crate::name::NAME_LEN
    &&& m.dst_section_key.len() == KEY_LEN
}

/// The bytes of a frame.
pub open spec fn wire_bytes(m: WireView) -> Seq<u8> {
    m.msg_id + m.src_name + m.dst_name + m.dst_section_key + seq![auth_tag(m.auth), m.payload_kind] + m.payload
}

/// The frame that `b` encodes, if any.
pub open spec fn parse_wire(b: Seq<u8>) -> Option<WireView> {
    if b.len() < HEADER_LEN {
        None
    } else {
        match auth_of_tag(b[128]) {
            None => None,
            Some(auth) => Some(
                WireView {
                    msg_id: b.subrange(0, 16),
                    src_name: b.subrange(16, 48),
                    dst_name: b.subrange(48, 80),
                    dst_section_key: b.subrange(80, 128),
                    auth,
                    payload_kind: b[129],
                    payload: b.subrange(130, b.len() as int),
                },
            ),
        }
    }
}

/// Decoding the encoding of a frame with well-sized header fields gives the frame back.
pub proof fn lemma_wire_round_trip(m: WireView)
    requires
        wire_valid(m),
    ensures
        parse_wire(wire_bytes(m)) == Some(m),
{
    let b = wire_bytes(m);
    assert(b[128] == auth_tag(m.auth));
    assert(b.subrange(0, 16) =~= m.msg_id);
    assert(b.subrange(16, 48) =~= m.src_name);
    assert(b.subrange(48, 80) =~= m.dst_name);
    assert(b.subrange(80, 128) =~= m.dst_section_key);
    assert(b.subrange(130, b.len() as int) =~= m.payload);
}

impl WireMsg {
    pub open spec fn view(&self) -> WireView {
        WireView {
            msg_id: self.msg_id@,
            src_name: self.src_name@,
            dst_name: self.dst_name@,
            dst_section_key: self.dst_section_key@,
            auth: self.auth,
            payload_kind: self.payload_kind,
            payload: self.payload@,
        }
    }

    /// The frame's bytes.
    pub fn serialize(&self) -> (r: Vec<u8>)
        ensures
            r@ == wire_bytes(self@),
    {
        let mut out: Vec<u8> = Vec::new();
        push_all(&mut out, &self.msg_id);
        push_all(&mut out, &self.src_name);
        push_all(&mut out, &self.dst_name);
        push_all(&mut out, &self.dst_section_key);
        let tag: u8 = match self.auth {
            AuthKind::Node => 0,
            AuthKind::NodeBlsShare => 1,
            AuthKind::Section => 2,
            AuthKind::Service => 3,
        };
        out.push(tag);
        out.push(self.payload_kind);
        push_all(&mut out, &self.payload);
        assert(out@ =~= wire_bytes(self@));
        out
    }

    /// The frame that `b` encodes, if any.
    pub fn deserialize(b: &Vec<u8>) -> (r: Option<WireMsg>)
        ensures
            r matches Some(m) ==> parse_wire(b@) == Some(m@),
            r is None ==> parse_wire(b@) is None,
    {
        if b.len() < HEADER_LEN {
            return None;
        }
        let auth = match b[128] {
            0 => AuthKind::Node,
            1 => AuthKind::NodeBlsShare,
            2 => AuthKind::Section,
            3 => AuthKind::Service,
            _ => return None,
        };
        let m = WireMsg {
            msg_id: slice_of(b, 0, 16),
            src_name: slice_of(b, 16, 48),
            dst_name: slice_of(b, 48, 80),
            dst_section_key: slice_of(b, 80, 128),
            auth,
            payload_kind: b[129],
            payload: slice_of(b, 130, b.len()),
        };
        Some(m)
    }

    /// The same frame addressed to another destination.
    pub fn with_dst(&self, dst_name: &Vec<u8>, dst_section_key: &Vec<u8>) -> (r: WireMsg)
        ensures
            r@ == (WireView { dst_name: dst_name@, dst_section_key: dst_section_key@, ..self@ }),
    {
        WireMsg {
            msg_id: copy_bytes(&self.msg_id),
            src_name: copy_bytes(&self.src_name),
            dst_name: copy_bytes(dst_name),
            dst_section_key: copy_bytes(dst_section_key),
            auth: self.auth,
            payload_kind: self.payload_kind,
            payload: copy_bytes(&self.payload),
        }
    }
}

/// Bytes `lo..hi` of `b`.
pub fn slice_of(b: &Vec<u8>, lo: usize, hi: usize) -> (r: Vec<u8>)
    requires
        lo <= hi <= b@.len(),
    ensures
        r@ == b@.subrange(lo as int, hi as int),
{
    let mut out: Vec<u8> = Vec::new();
    let mut i: usize = lo;
    while i < hi
        invariant
            lo <= i <= hi,
            hi <= b@.len(),
            out@ == b@.subrange(lo as int, i as int),
        decreases hi - i,
    {
        out.push(b[i]);
        i += 1;
        assert(out@ =~= b@.subrange(lo as int, i as int));
    }
    out
}

} // verus!
