//! Throughput arithmetic: the exact bit rate achieved end-to-end, from
//! the payload size and the measured wall-clock duration.

use vstd::prelude::*;

verus! {

/// Bits per second achieved: `size * 8` bits over `elapsed_micros`
/// microseconds, rounded down. A zero duration has no defined rate and
/// yields `None` rather than a division by zero.
pub fn throughput_bits_per_sec(size: usize, elapsed_micros: u64) -> (r: Option<u128>)
    ensures
        elapsed_micros == 0 ==> r is None,
        elapsed_micros > 0 ==> (r matches Some(bps) && bps == size * 8 * 1_000_000
            / (elapsed_micros as int)),
{
    if elapsed_micros == 0 {
        None
    } else {
        let bits: u128 = (size as u128) * 8;
        Some(bits * 1_000_000 / (elapsed_micros as u128))
    }
}

} // verus!
