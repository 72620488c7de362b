//! The WAL redo executor, as far as a layer needs it: something that
//! replays records on a base image and hands back the page.

use crate::lsn::Lsn;
use crate::reconstruct::image_view;
use crate::repository::{records_view, RelTag, WALRecord, WalRecordView};
use bytes::Bytes;
use vstd::prelude::*;

verus! {

/// Why a redo request failed.
#[derive(Debug)]
pub struct WalRedoError {
    pub message: String,
}

/// An executor of WAL redo. It may be slow and it may fail; a layer makes
/// no assumption on what it returns.
pub trait WalRedoManager {
    /// Whether `result` is an answer of this executor to the request. An
    /// implementation says here what it wants its callers to know; as it
    /// stands, nothing is said.
    open spec fn redo_result(
        &self,
        tag: RelTag,
        blknum: u32,
        lsn: Lsn,
        base_img: Option<Seq<u8>>,
        records: Seq<WalRecordView>,
        result: Result<Bytes, WalRedoError>,
    ) -> bool {
        true
    }

    /// Replays `records`, oldest first, on `base_img` and hands back the
    /// page of `tag` and `blknum` as of `lsn`.
    fn request_redo(
        &self,
        tag: RelTag,
        blknum: u32,
        lsn: Lsn,
        base_img: Option<Bytes>,
        records: Vec<WALRecord>,
    ) -> (r: Result<Bytes, WalRedoError>)
        ensures
            self.redo_result(tag, blknum, lsn, image_view(base_img), records_view(records@), r),
    ;
}

} // verus!
