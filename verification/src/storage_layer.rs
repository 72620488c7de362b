//! What every layer offers, frozen or not: reading pages and relation
//! sizes as of an LSN, and, while it is not frozen, taking in new versions.

use crate::byte_buf::bytes_contents;
use crate::lsn::Lsn;
use crate::page_version::{PageVersion, PageVersionView};
use crate::reconstruct::{page_source, zero_page_contents, PageSourceView};
use crate::rel_size::size_at;
use crate::repository::{RelTag, ZTimelineId};
use crate::walredo::{WalRedoError, WalRedoManager};
use bytes::Bytes;
use vstd::prelude::*;

verus! {

/// What can go wrong with a layer.
#[derive(Debug)]
pub enum LayerError {
    /// A version that the page depends on holds neither an image nor a WAL
    /// record: the version history is corrupt.
    NoImageOrRecord { tag: RelTag, blknum: u32, lsn: Lsn },
    /// No size of the relation is known as of the LSN.
    NoRelSize { tag: RelTag, lsn: Lsn },
    /// The layer is frozen and takes in nothing.
    CannotModify,
    /// The layer is frozen already.
    CannotFreeze,
    /// The file with the version history is malformed.
    MalformedPageVersions,
    /// The file with the relation sizes is malformed.
    MalformedRelSizes,
    /// The WAL redo executor failed.
    WalRedo(WalRedoError),
}

/// What a layer returns for the answer `outcome` of the executor.
pub open spec fn redo_answer(outcome: Result<Bytes, WalRedoError>) -> Result<Bytes, LayerError> {
    match outcome {
        Ok(img) => Ok(img),
        Err(e) => Err(LayerError::WalRedo(e)),
    }
}

/// Whether `r` is what a layer of `tag` may return for the page of block
/// `blknum` as of `lsn` where the page comes from `source`, with the
/// executor `mgr` at hand.
///
/// A stored image is returned as it is. A block that was never written is a
/// page of zeros, and so is one whose records have nothing to be replayed
/// on. Where records are to be replayed, the executor is asked with the
/// base image and the records, oldest first, and its answer is returned.
pub open spec fn source_answer<M: WalRedoManager>(
    mgr: &M,
    tag: RelTag,
    blknum: u32,
    lsn: Lsn,
    source: PageSourceView,
    r: Result<Bytes, LayerError>,
) -> bool {
    match source {
        PageSourceView::Image(img) => r matches Ok(b) && bytes_contents(b) == img,
        PageSourceView::NeverWritten => r matches Ok(b) && bytes_contents(b)
            == zero_page_contents(),
        PageSourceView::MissingBase { .. } => r matches Ok(b) && bytes_contents(b)
            == zero_page_contents(),
        PageSourceView::Redo { base_img, records } => exists|outcome: Result<Bytes, WalRedoError>|
            #[trigger] mgr.redo_result(tag, blknum, lsn, base_img, records, outcome) && r
                == redo_answer(outcome),
    }
}

/// Whether `r` is what a layer of `tag` with the version history `m` may
/// return for the page of block `blknum` as of `lsn`, with the executor
/// `mgr` at hand: an error where a version that is needed holds neither an
/// image nor a record, else the answer for where the page comes from.
pub open spec fn page_answer<M: WalRedoManager>(
    mgr: &M,
    tag: RelTag,
    m: Map<(u32, u64), PageVersionView>,
    blknum: u32,
    lsn: Lsn,
    r: Result<Bytes, LayerError>,
) -> bool {
    match page_source(m, blknum, lsn@) {
        None => r == Err::<Bytes, LayerError>(LayerError::NoImageOrRecord { tag, blknum, lsn }),
        Some(source) => source_answer(mgr, tag, blknum, lsn, source, r),
    }
}

/// A layer: the versions of the pages of one relation in a range of LSNs,
/// with the relation's size over that range.
pub trait Layer {
    /// Whether the layer is frozen: it takes in nothing any more.
    spec fn frozen(&self) -> bool;

    /// The timeline that the layer belongs to.
    spec fn timeline(&self) -> ZTimelineId;

    /// The relation that the layer is about.
    spec fn rel_tag(&self) -> RelTag;

    /// The first LSN of the layer's range.
    spec fn first_lsn(&self) -> Lsn;

    /// The LSN behind the layer's range.
    spec fn last_lsn(&self) -> Lsn;

    /// The version history, from `(block number, LSN)` to page version.
    spec fn page_versions(&self) -> Map<(u32, u64), PageVersionView>;

    /// The size history, from LSN to number of pages.
    spec fn rel_sizes(&self) -> Map<u64, u32>;

    fn is_frozen(&self) -> (b: bool)
        ensures
            b == self.frozen(),
    ;

    fn get_timeline_id(&self) -> (id: ZTimelineId)
        ensures
            id == self.timeline(),
    ;

    fn get_tag(&self) -> (tag: RelTag)
        ensures
            tag == self.rel_tag(),
    ;

    fn get_start_lsn(&self) -> (lsn: Lsn)
        ensures
            lsn == self.first_lsn(),
    ;

    fn get_end_lsn(&self) -> (lsn: Lsn)
        ensures
            lsn == self.last_lsn(),
    ;

    /// The page of block `blknum` as of `lsn`.
    fn get_page_at_lsn<M: WalRedoManager>(&self, walredo_mgr: &M, blknum: u32, lsn: Lsn) -> (r:
        Result<Bytes, LayerError>)
        ensures
            page_answer(walredo_mgr, self.rel_tag(), self.page_versions(), blknum, lsn, r),
    ;

    /// The number of pages of the relation as of `lsn`; an error where the
    /// relation did not exist then.
    fn get_rel_size(&self, lsn: Lsn) -> (r: Result<u32, LayerError>)
        ensures
            r == (match size_at(self.rel_sizes(), lsn@ as int) {
                Some(n) => Ok::<u32, LayerError>(n),
                None => Err::<u32, LayerError>(
                    LayerError::NoRelSize { tag: self.rel_tag(), lsn },
                ),
            }),
    ;

    /// Whether the relation existed as of `lsn`. Never an error.
    fn get_rel_exists(&self, lsn: Lsn) -> (r: Result<bool, LayerError>)
        ensures
            r == Ok::<bool, LayerError>(size_at(self.rel_sizes(), lsn@ as int) is Some),
    ;

    /// Takes in a page version. Not to be called on a frozen layer: a call
    /// that gets there was routed wrongly, and aborts.
    fn put_page_version(&self, blknum: u32, lsn: Lsn, pv: PageVersion) -> (r: Result<
        (),
        LayerError,
    >)
        requires
            !self.frozen(),
    ;

    /// Records that the relation has `relsize` pages from `lsn` on. A frozen
    /// layer refuses.
    fn put_truncation(&self, lsn: Lsn, relsize: u32) -> (r: Result<(), LayerError>)
        ensures
            self.frozen() ==> r == Err::<(), LayerError>(LayerError::CannotModify),
    ;

    /// Freezes the layer at `end_lsn`. A frozen layer refuses.
    fn freeze(&self, end_lsn: Lsn) -> (r: Result<(), LayerError>)
        ensures
            self.frozen() ==> r == Err::<(), LayerError>(LayerError::CannotFreeze),
    ;
}

} // verus!
