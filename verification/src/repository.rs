//! Identifiers of relations and timelines, and WAL records.

use crate::byte_buf::bytes_contents;
use bytes::Bytes;
use vstd::prelude::*;

verus! {

/// Identifies one physical relation fork.
#[derive(Clone, Copy, Debug, PartialEq, Eq, Structural, PartialOrd, Ord, Hash)]
pub struct RelTag {
    pub spcnode: u32,
    pub dbnode: u32,
    pub relnode: u32,
    pub forknum: u8,
}

/// Identifies a timeline; one storage directory belongs to each.
#[derive(Clone, Copy, Debug, PartialEq, Eq, Hash)]
pub struct ZTimelineId(pub [u8; 16]);

/// A WAL record that applies to one page.
#[derive(Debug)]
pub struct WALRecord {
    /// Replaying this record determines the whole page, so that nothing
    /// older is needed.
    pub will_init: bool,
    /// The record itself, opaque to this library.
    pub rec: Bytes,
}

/// A WAL record as a mathematical value.
pub struct WalRecordView {
    pub will_init: bool,
    pub rec: Seq<u8>,
}

impl View for WALRecord {
    type V = WalRecordView;

    open spec fn view(&self) -> WalRecordView {
        WalRecordView { will_init: self.will_init, rec: bytes_contents(self.rec) }
    }
}

impl Clone for WALRecord {
    /// A second handle on the same payload.
    fn clone(&self) -> (r: Self)
        ensures
            r@ == self@,
    {
        WALRecord { will_init: self.will_init, rec: self.rec.clone() }
    }
}

/// The views of a sequence of records, in the same order.
pub open spec fn records_view(records: Seq<WALRecord>) -> Seq<WalRecordView> {
    records.map_values(|r: WALRecord| r@)
}

} // verus!
