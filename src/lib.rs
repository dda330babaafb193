//! Round-based simulation of a wireless sensor network under two clustering
//! protocols: a rotation-based election and a zone-based spatial variant.
//!
//! Units: positions are integer centimetres, energies are integer picojoules,
//! packet sizes are bits.
pub mod radio;
pub mod node;
pub mod network;
pub mod clustering;
pub mod simulator;
pub mod zcr;
pub mod leach;
mod random;
