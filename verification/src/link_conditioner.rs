//! A stand-in for a bad link, for tests: it decides for each datagram
//! whether it is transmitted or dropped.

use vstd::prelude::*;

verus! {

/// The multiplier of the generator.
pub const MULTIPLIER: u64 = 6364136223846793005;

/// The increment of the generator.
pub const INCREMENT: u64 = 1442695040888963407;

/// The share of datagrams that is dropped, in thousandths.
pub const FULL_LOSS: u32 = 1000;

/// Drops a share of the datagrams.
///
/// The decisions come from a generator whose whole state is the seed, so a
/// conditioner with the same seed and the same loss decides the same way.
#[derive(Clone, Copy, Debug, PartialEq, Eq)]
pub struct LinkConditioner {
    /// How many of a thousand datagrams are dropped.
    pub packet_loss: u32,
    /// The state of the generator.
    pub seed: u64,
}

/// The state of the generator after one step.
pub open spec fn advanced(seed: u64) -> u64 {
    seed.wrapping_mul(MULTIPLIER).wrapping_add(INCREMENT)
}

/// The number from 0 to 999 that a state of the generator gives.
pub open spec fn drawn(seed: u64) -> u32 {
    ((seed / 8589934592) % 1000) as u32
}

impl LinkConditioner {
    /// Whether the next datagram is transmitted.
    pub open spec fn permits(self) -> bool {
        drawn(advanced(self.seed)) >= self.packet_loss
    }

    /// The conditioner after it has decided on a datagram.
    pub open spec fn stepped(self) -> LinkConditioner {
        LinkConditioner { seed: advanced(self.seed), ..self }
    }

    /// A conditioner that drops nothing.
    pub fn new() -> (r: LinkConditioner)
        ensures
            r == (LinkConditioner { packet_loss: 0, seed: 0 }),
    {
        LinkConditioner { packet_loss: 0, seed: 0 }
    }

    /// A conditioner that drops nothing and whose generator starts at
    /// `seed`.
    pub fn with_seed(seed: u64) -> (r: LinkConditioner)
        ensures
            r == (LinkConditioner { packet_loss: 0, seed }),
    {
        LinkConditioner { packet_loss: 0, seed }
    }

    /// Sets how many of a thousand datagrams are dropped.
    pub fn set_packet_loss(&mut self, per_mille: u32)
        ensures
            *final(self) == (LinkConditioner { packet_loss: per_mille, ..*old(self) }),
    {
        self.packet_loss = per_mille;
    }

    /// Decides whether the next datagram is transmitted.
    pub fn should_send(&mut self) -> (r: bool)
        ensures
            r == old(self).permits(),
            *final(self) == old(self).stepped(),
    {
        self.seed = self.seed.wrapping_mul(MULTIPLIER).wrapping_add(INCREMENT);
        let draw: u32 = ((self.seed / 8589934592) % 1000) as u32;
        draw >= self.packet_loss
    }
}

/// A conditioner that is set to drop nothing transmits every datagram, and
/// one that is set to drop all of them transmits none.
pub proof fn lemma_loss_bounds(conditioner: LinkConditioner)
    ensures
        conditioner.packet_loss == 0 ==> conditioner.permits(),
        conditioner.packet_loss >= FULL_LOSS ==> !conditioner.permits(),
{
}

} // verus!
