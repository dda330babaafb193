//! First-order radio energy model on integer units.
//!
//! Distances enter squared (cm²), so the free-space / multipath boundary is an
//! exact integer comparison.
use vstd::prelude::*;

verus! {

/// Electronics energy per bit, for transmission and reception (pJ/bit).
pub const ENERGY_PER_BIT_ELECTRONICS_PJ: u64 = 50_000;

/// Aggregation energy per bit per signal (pJ/bit).
pub const ENERGY_AGGREGATION_PJ: u64 = 5_000;

/// Free-space amplifier: one picojoule per bit per this many cm².
pub const FREE_SPACE_AMP_DIVISOR: u128 = 1_000;

/// Multipath amplifier: this many picojoules per bit per `MULTIPATH_AMP_DIVISOR` cm⁴.
pub const MULTIPATH_AMP_FACTOR: u128 = 13;

/// Divisor of the multipath amplifier coefficient.
pub const MULTIPATH_AMP_DIVISOR: u128 = 1_000_000_000_000;

/// Free-space / multipath threshold distance (cm).
pub const FS_MULTIPATH_THRESHOLD_CM: u64 = 8_770;

/// Square of the threshold distance (cm²).
pub const FS_MULTIPATH_THRESHOLD_SQ: u64 = 76_912_900;

/// Largest packet the model accepts (bits): a range bound that keeps every
/// cost, times up to `MAX_NODES` members, far inside the energy type.
pub const MAX_PACKET_BITS: u64 = 1_000_000;

/// Largest squared distance the model accepts (cm²): covers any two points
/// of the `MAX_COORD` square.
pub const MAX_DIST_SQ: u64 = 8_000_000_000_000;

/// Size of a data packet (bits).
pub const DATA_PACKET_SIZE_BITS: u64 = 4_000;

/// Upper bound of any single transmit cost accepted by the model (pJ).
pub const MAX_TRANSMIT_PJ: u128 = 1_000_000_000_000_000_000_000;

/// Whether a squared distance lies on the free-space side of the threshold.
pub open spec fn is_free_space(dist_sq: int) -> bool {
    dist_sq <= FS_MULTIPATH_THRESHOLD_SQ as int
}

/// Amplifier term of a transmission over a squared distance.
pub open spec fn amplifier_spec(bits: int, dist_sq: int) -> int {
    if is_free_space(dist_sq) {
        (bits * dist_sq) / (FREE_SPACE_AMP_DIVISOR as int)
    } else {
        (bits * (MULTIPATH_AMP_FACTOR as int) * (dist_sq * dist_sq)) / (MULTIPATH_AMP_DIVISOR as int)
    }
}

/// Energy to transmit `bits` over a distance whose square is `dist_sq`.
pub open spec fn transmit_spec(bits: int, dist_sq: int) -> int {
    bits * (ENERGY_PER_BIT_ELECTRONICS_PJ as int) + amplifier_spec(bits, dist_sq)
}

/// Energy to receive `bits`.
pub open spec fn receive_spec(bits: int) -> int {
    bits * (ENERGY_PER_BIT_ELECTRONICS_PJ as int)
}

/// Energy to aggregate `bits`.
pub open spec fn aggregation_spec(bits: int) -> int {
    bits * (ENERGY_AGGREGATION_PJ as int)
}

/// Free-space cost at the given squared distance.
pub open spec fn free_space_cost(bits: int, dist_sq: int) -> int {
    bits * (ENERGY_PER_BIT_ELECTRONICS_PJ as int) + (bits * dist_sq) / (FREE_SPACE_AMP_DIVISOR as int)
}

pub proof fn lemma_transmit_bounds(bits: int, dist_sq: int)
    requires
        0 <= bits <= MAX_PACKET_BITS,
        0 <= dist_sq <= MAX_DIST_SQ,
    ensures
        0 <= amplifier_spec(bits, dist_sq),
        0 <= transmit_spec(bits, dist_sq) <= MAX_TRANSMIT_PJ,
{
    assert(0 <= bits * dist_sq <= 1_000_000 * 8_000_000_000_000) by (nonlinear_arith)
        requires 0 <= bits <= 1_000_000, 0 <= dist_sq <= 8_000_000_000_000;
    assert(0 <= dist_sq * dist_sq <= 8_000_000_000_000 * 8_000_000_000_000) by (nonlinear_arith)
        requires 0 <= dist_sq <= 8_000_000_000_000;
    let sq = dist_sq * dist_sq;
    assert(0 <= bits * 13 * sq <= 1_000_000 * 13 * (8_000_000_000_000 * 8_000_000_000_000)) by (nonlinear_arith)
        requires 0 <= bits <= 1_000_000, 0 <= sq <= 8_000_000_000_000 * 8_000_000_000_000;
}

/// Energy (pJ) to transmit `bits` over a distance whose square is `dist_sq`:
/// electronics plus the free-space amplifier up to the threshold (inclusive),
/// the multipath amplifier beyond it.
pub fn transmit_energy(bits: u64, dist_sq: u64) -> (r: u128)
    requires
        bits <= MAX_PACKET_BITS,
        dist_sq <= MAX_DIST_SQ,
    ensures
        r == transmit_spec(bits as int, dist_sq as int),
        r <= MAX_TRANSMIT_PJ,
{
    proof {
        lemma_transmit_bounds(bits as int, dist_sq as int);
    }
    let b = bits as u128;
    let d = dist_sq as u128;
    assert(b * d <= 1_000_000 * 8_000_000_000_000) by (nonlinear_arith)
        requires b <= 1_000_000, d <= 8_000_000_000_000;
    assert(d * d <= 8_000_000_000_000 * 8_000_000_000_000) by (nonlinear_arith)
        requires d <= 8_000_000_000_000;
    let electronics: u128 = b * (ENERGY_PER_BIT_ELECTRONICS_PJ as u128);
    let amp: u128 = if dist_sq <= FS_MULTIPATH_THRESHOLD_SQ {
        (b * d) / FREE_SPACE_AMP_DIVISOR
    } else {
        let sq: u128 = d * d;
        assert(b * 13 * sq <= 1_000_000 * 13 * (8_000_000_000_000 * 8_000_000_000_000)) by (nonlinear_arith)
            requires b <= 1_000_000, sq <= 8_000_000_000_000 * 8_000_000_000_000;
        (b * MULTIPATH_AMP_FACTOR * sq) / MULTIPATH_AMP_DIVISOR
    };
    electronics + amp
}

/// Energy (pJ) to receive `bits`.
pub fn receive_energy(bits: u64) -> (r: u128)
    requires
        bits <= MAX_PACKET_BITS,
    ensures
        r == receive_spec(bits as int),
{
    let b = bits as u128;
    assert(b * 50_000 <= 1_000_000 * 50_000) by (nonlinear_arith)
        requires b <= 1_000_000;
    b * (ENERGY_PER_BIT_ELECTRONICS_PJ as u128)
}

/// Energy (pJ) to aggregate `bits`.
pub fn aggregation_energy(bits: u64) -> (r: u128)
    requires
        bits <= MAX_PACKET_BITS,
    ensures
        r == aggregation_spec(bits as int),
{
    let b = bits as u128;
    assert(b * 5_000 <= 1_000_000 * 5_000) by (nonlinear_arith)
        requires b <= 1_000_000;
    b * (ENERGY_AGGREGATION_PJ as u128)
}

/// At exactly the threshold distance the free-space formula applies: the
/// boundary belongs to the free-space side.
pub proof fn lemma_threshold_is_free_space(bits: int)
    requires
        0 <= bits <= MAX_PACKET_BITS,
    ensures
        transmit_spec(bits, FS_MULTIPATH_THRESHOLD_SQ as int) == free_space_cost(
            bits,
            FS_MULTIPATH_THRESHOLD_SQ as int,
        ),
        FS_MULTIPATH_THRESHOLD_SQ == FS_MULTIPATH_THRESHOLD_CM * FS_MULTIPATH_THRESHOLD_CM,
{
}

} // verus!
