//! CRC-32C checksums, computed by the `crc32c` crate.
//!
//! Everything in this file is believed, not proved.

use vstd::prelude::*;

verus! {

/// The CRC-32C (Castagnoli) checksum of `data`, as `crc32c::crc32c`
/// computes it.
pub uninterp spec fn crc32c_of(data: Seq<u8>) -> u32;

/// `crc32c::crc32c` computes the checksum of the data, starting from 0; it
/// depends on the bytes alone, whether the hardware or the software
/// implementation runs.
pub assume_specification[ crc32c::crc32c ](data: &[u8]) -> (crc: u32)
    ensures
        crc == crc32c_of(data@),
;

} // verus!
