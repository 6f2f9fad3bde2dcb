//! The vote phase of DKG runs in sn_sdkg's `DkgState`; these are the calls
//! into it. Its values are opaque here and only carried.

use vstd::prelude::*;

verus! {

#[verifier::external_type_specification]
#[verifier::external_body]
pub struct ExDkgState(sn_sdkg::DkgState);

#[verifier::external_type_specification]
#[verifier::external_body]
pub struct ExDkgSignedVote(sn_sdkg::DkgSignedVote);

#[verifier::external_type_specification]
#[verifier::external_body]
pub struct ExVoteResponse(sn_sdkg::VoteResponse);

/// Relies on sn_sdkg's `DkgState::new` (with blsttc's key decoding and an
/// OS random source): `None` when a key does not decode or the state cannot
/// be built, as when `our_id` is not among the participants.
#[verifier::external_body]
pub(crate) fn dkg_state_new(our_id: u8, secret: &Vec<u8>, keys: &Vec<(u8, Vec<u8>)>, threshold: usize) -> (r: Option<sn_sdkg::DkgState>)
{
    let sk: [u8; blsttc::SK_SIZE] = secret.as_slice().try_into().ok()?;
    let sk = blsttc::SecretKey::from_bytes(sk).ok()?;
    let mut map = std::collections::BTreeMap::new();
    for (id, k) in keys.iter() {
        let b: [u8; blsttc::PK_SIZE] = k.as_slice().try_into().ok()?;
        map.insert(*id, blsttc::PublicKey::from_bytes(b).ok()?);
    }
    sn_sdkg::DkgState::new(our_id, sk, map, threshold, blsttc::rand::rngs::OsRng).ok()
}

/// Relies on sn_sdkg's `DkgState::first_vote`: our signed part, also
/// recorded in the state; `None` if signing fails.
#[verifier::external_body]
pub(crate) fn dkg_first_vote(state: &mut sn_sdkg::DkgState) -> (r: Option<sn_sdkg::DkgSignedVote>)
{
    state.first_vote().ok()
}

/// Relies on sn_sdkg's `DkgState::handle_signed_vote`: the reactions to the
/// vote (empty when it was already known); `None` for an invalid vote.
#[verifier::external_body]
pub(crate) fn dkg_handle_vote(state: &mut sn_sdkg::DkgState, vote: sn_sdkg::DkgSignedVote) -> (r: Option<Vec<sn_sdkg::VoteResponse>>)
{
    state.handle_signed_vote(vote, blsttc::rand::rngs::OsRng).ok()
}

/// Relies on sn_sdkg's `DkgState::all_votes`: the votes the state holds.
#[verifier::external_body]
pub(crate) fn dkg_all_votes(state: &sn_sdkg::DkgState) -> (r: Vec<sn_sdkg::DkgSignedVote>)
{
    state.all_votes()
}

/// A reaction of a session's vote-phase state, with keys as their encodings.
pub enum DkgReaction {
    WaitingForMoreVotes,
    RequestAntiEntropy,
    /// Our next vote, for every participant.
    BroadcastVote(sn_sdkg::DkgSignedVote),
    /// The session's outcome: the new key set and our share of its secret.
    Complete { public_key_set: Vec<u8>, secret_key_share: Vec<u8> },
}

/// Relies on sn_sdkg's `VoteResponse` variants, told apart one arm each, and
/// blsttc's `PublicKeySet::to_bytes` and `SecretKeyShare::to_bytes`.
#[verifier::external_body]
pub(crate) fn classify_response(r: sn_sdkg::VoteResponse) -> (out: DkgReaction)
{
    match r {
        sn_sdkg::VoteResponse::WaitingForMoreVotes => DkgReaction::WaitingForMoreVotes,
        sn_sdkg::VoteResponse::RequestAntiEntropy => DkgReaction::RequestAntiEntropy,
        sn_sdkg::VoteResponse::BroadcastVote(v) => DkgReaction::BroadcastVote(*v),
        sn_sdkg::VoteResponse::DkgComplete(set, share) => DkgReaction::Complete {
            public_key_set: set.to_bytes(),
            secret_key_share: share.to_bytes().to_vec(),
        },
    }
}

} // verus!
