//! Elder coordination engine of a node in a sectioned peer-to-peer overlay:
//! section key chain, section authority, member roster, signature
//! aggregation, DKG key exchange, anti-entropy decisions and the wire codec.

pub mod ae;
pub mod aggregator;
pub mod bytes;
pub mod chain;
pub mod crypto;
pub mod dkg;
pub mod dkg_engine;
pub mod error;
pub mod key_section;
pub mod laws;
pub mod name;
pub mod node;
pub mod roster;
pub mod sap;
pub mod section;
pub mod wire;

use vstd::prelude::*;

verus! {

/// Target number of Elders in a section.
pub const ELDER_SIZE: usize = 7;

/// Number of mature members each half needs before a section splits.
pub const RECOMMENDED_SECTION_SIZE: usize = 10;

/// Age at which a member counts as mature (an adult).
pub const MIN_ADULT_AGE: u8 = 5;

/// Age reserved for the genesis node.
pub const GENESIS_AGE: u8 = 255;

/// `floor(2n/3) + 1`: the number of votes that makes a quorum among `n`.
pub open spec fn supermajority_spec(n: nat) -> nat {
    2 * n / 3 + 1
}

/// Quorum size among `n` Elders.
pub fn supermajority(n: usize) -> (r: usize)
    ensures
        r == supermajority_spec(n as nat),
{
    threshold(n) + 1
}

/// DKG threshold among `n` Elders: one less than the quorum.
pub fn threshold(n: usize) -> (r: usize)
    ensures
        r + 1 == supermajority_spec(n as nat),
        r < n || n == 0,
{
    let q = n / 3;
    let rem = n % 3;
    let extra: usize = if rem == 2 { 1 } else { 0 };
    assert(2 * (n as int) / 3 == 2 * q + extra) by (nonlinear_arith)
        requires
            q == n / 3,
            rem == n % 3,
            extra == (if rem == 2 { 1int } else { 0int }),
            n >= 0,
    ;
    2 * q + extra
}

} // verus!
