//! Optimal (clairvoyant) cache simulation over recorded access traces.
//!
//! The library computes the forward reuse distance of every access of a
//! trace, replays the trace under Belady's MIN replacement policy for a given
//! capacity, and sweeps that simulation over a range of capacities.
pub mod hex;
pub mod opt;
pub mod records;
pub mod reuse;
pub mod sweep;

pub use hex::parse_hex;
pub use opt::{opt_simulation, simulate, AccessResult, OptCacheSim, SimulationResult};
pub use records::{calculate_forward_ri, AccessTrace};
pub use reuse::{forward_distance, NEVER};
pub use sweep::{sweep, CurvePoint};
