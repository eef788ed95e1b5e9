//! A consistent-hashing ring: keys are routed to hosts through virtual nodes
//! placed on a circular 64-bit hash space, with an optional bounded-load
//! lookup that caps how far any single host's load may run ahead of the mean.

use vstd::prelude::*;

pub mod hashing;
pub mod laws;
pub mod lemmas;
pub mod model;
pub mod ring;

pub use ring::Host;
pub use ring::Ring;

verus! {

/// Tunables for a ring: how many virtual nodes each host gets, and the
/// load-factor ratio (numerator over denominator, at least one) that the
/// bounded-load lookup multiplies into the mean load to obtain its cap.
pub struct Config {
    pub replication_factor: u64,
    pub load_factor_num: u64,
    pub load_factor_den: u64,
}

impl Config {
    /// A usable configuration: at least one virtual node per host and a
    /// load factor that is a well-formed ratio of at least one.
    pub open spec fn wf(self) -> bool {
        &&& self.replication_factor >= 1
        &&& self.load_factor_den >= 1
        &&& self.load_factor_num >= self.load_factor_den
    }
}

impl Default for Config {
    /// Ten virtual nodes per host and a load factor of five quarters.
    fn default() -> (c: Config)
        ensures
            c.replication_factor == 10,
            c.load_factor_num == 125,
            c.load_factor_den == 100,
            c.wf(),
    {
        Config { replication_factor: 10, load_factor_num: 125, load_factor_den: 100 }
    }
}

} // verus!
