//! What the verified code knows of `bytes::Bytes`, the shared byte buffer
//! that page images and WAL payloads are held in.
//!
//! Everything in this file is believed, not proved.

use bytes::Bytes;
use vstd::prelude::*;

verus! {

/// `bytes::Bytes`, a handle on a chunk of contiguous memory. Its fields
/// are never looked at from verified code.
#[verifier::external_type_specification]
#[verifier::external_body]
pub struct ExBytes(bytes::Bytes);

/// The bytes that a handle gives access to, first to last: what its
/// `as_ref()` dereferences to.
pub uninterp spec fn bytes_contents(b: Bytes) -> Seq<u8>;

/// `Bytes::clone` hands out a second handle on the same memory region,
/// so both give access to the same bytes.
pub assume_specification[ <Bytes as Clone>::clone ](b: &Bytes) -> (r: Bytes)
    ensures
        bytes_contents(r) == bytes_contents(*b),
;

/// `Bytes::copy_from_slice` copies the slice into a new buffer.
pub assume_specification[ Bytes::copy_from_slice ](data: &[u8]) -> (r: Bytes)
    ensures
        bytes_contents(r) == data@,
;

/// `Bytes::from(Vec<u8>)` takes the vector's memory over; the bytes are
/// those of the vector, up to its length.
pub assume_specification[ <Bytes as From<Vec<u8>>>::from ](vec: Vec<u8>) -> (r: Bytes)
    ensures
        bytes_contents(r) == vec@,
;

/// `Bytes::as_ref` borrows the region as a slice.
pub assume_specification[ <Bytes as AsRef<[u8]>>::as_ref ](b: &Bytes) -> (r: &[u8])
    ensures
        r@ == bytes_contents(*b),
;

} // verus!
