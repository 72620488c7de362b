//! Page reconstruction: which stored versions of a block make up the page
//! as it was at an LSN.
//!
//! The versions of the block at or before the LSN are walked from the
//! newest down. An image ends the walk and is the base to replay on. A WAL
//! record is collected; one that initialises the page ends the walk too.

use crate::byte_buf::bytes_contents;
use crate::lsn::Lsn;
use crate::page_version::{
    entries_map, entry_key, has_key, key_lt, keys_ascending, lemma_entries_map_dom,
    lemma_entries_map_value, PageVersionView, VersionEntryView, VersionHistory,
};
use crate::repository::{records_view, WALRecord, WalRecordView};
use bytes::Bytes;
use vstd::prelude::*;

verus! {

/// What a walk has found: the image to start from, if there is one, and the
/// records to replay, oldest first.
pub struct RedoChain {
    pub base_img: Option<Seq<u8>>,
    pub records: Seq<WalRecordView>,
}

/// A chain with records added that are newer than its own.
pub open spec fn with_newer(older: Option<RedoChain>, newer: Seq<WalRecordView>) -> Option<
    RedoChain,
> {
    match older {
        Some(c) => Some(RedoChain { base_img: c.base_img, records: c.records + newer }),
        None => None,
    }
}

/// The chain for block `blknum` as of `lsn`; `None` where the walk meets a
/// version that holds neither an image nor a record.
///
/// Where nothing was written at `lsn`, it is the chain as of the LSN before.
/// An image at `lsn` is the base, and nothing older counts. So it is with a
/// record that initialises the page. Any other record is replayed on the
/// chain as of the LSN before.
pub open spec fn redo_chain(
    m: Map<(u32, u64), PageVersionView>,
    blknum: u32,
    lsn: int,
) -> Option<RedoChain>
    decreases lsn + 1,
{
    if lsn < 0 {
        Some(RedoChain { base_img: None, records: Seq::empty() })
    } else if !m.dom().contains((blknum, lsn as u64)) {
        redo_chain(m, blknum, lsn - 1)
    } else {
        let v = m[(blknum, lsn as u64)];
        match v.page_image {
            Some(img) => Some(RedoChain { base_img: Some(img), records: Seq::empty() }),
            None => match v.record {
                Some(rec) => if rec.will_init {
                    Some(RedoChain { base_img: None, records: seq![rec] })
                } else {
                    with_newer(redo_chain(m, blknum, lsn - 1), seq![rec])
                },
                None => None,
            },
        }
    }
}

/// Where nothing was written to the block in `lo + 1 ..= hi`, the chain as
/// of `hi` is that as of `lo`.
pub proof fn lemma_redo_chain_skip(
    m: Map<(u32, u64), PageVersionView>,
    blknum: u32,
    lo: int,
    hi: int,
)
    requires
        -1 <= lo <= hi <= u64::MAX,
        forall|l: u64| lo < l <= hi ==> !m.dom().contains((blknum, l)),
    ensures
        redo_chain(m, blknum, hi) == redo_chain(m, blknum, lo),
    decreases hi - lo,
{
    if lo < hi {
        assert(!m.dom().contains((blknum, hi as u64)));
        lemma_redo_chain_skip(m, blknum, lo, hi - 1);
    }
}

/// A block to which nothing was written at or before `lsn` was never
/// written as of `lsn`: its page is one of zeros, and no error.
pub proof fn lemma_never_written(m: Map<(u32, u64), PageVersionView>, blknum: u32, lsn: u64)
    requires
        forall|l: u64| l <= lsn ==> !m.dom().contains((blknum, l)),
    ensures
        page_source(m, blknum, lsn) == Some(PageSourceView::NeverWritten),
{
    lemma_redo_chain_skip(m, blknum, -1, lsn as int);
}

/// The image in an optional buffer.
pub open spec fn image_view(img: Option<Bytes>) -> Option<Seq<u8>> {
    match img {
        Some(b) => Some(bytes_contents(b)),
        None => None,
    }
}

/// How many bytes a page has.
pub const PAGE_SIZE: usize = 8192;

/// A page of zeros.
pub open spec fn zero_page_contents() -> Seq<u8> {
    Seq::new(PAGE_SIZE as nat, |i: int| 0u8)
}

/// Where the page comes from, as a mathematical value.
pub enum PageSourceView {
    /// A stored image is the page.
    Image(Seq<u8>),
    /// Nothing was written to the block at or before the LSN.
    NeverWritten,
    /// There are records, but neither an image to replay them on nor a
    /// record that initialises the page.
    MissingBase { records: Seq<WalRecordView> },
    /// The records are to be replayed, on the image if there is one.
    Redo { base_img: Option<Seq<u8>>, records: Seq<WalRecordView> },
}

/// Where the page that a chain stands for comes from.
pub open spec fn chain_source(c: RedoChain) -> PageSourceView {
    if c.records.len() == 0 {
        match c.base_img {
            Some(img) => PageSourceView::Image(img),
            None => PageSourceView::NeverWritten,
        }
    } else if c.base_img is None && !c.records[0].will_init {
        PageSourceView::MissingBase { records: c.records }
    } else {
        PageSourceView::Redo { base_img: c.base_img, records: c.records }
    }
}

/// Where the page of block `blknum` as of `lsn` comes from; `None` where a
/// version that is needed holds neither an image nor a record.
pub open spec fn page_source(m: Map<(u32, u64), PageVersionView>, blknum: u32, lsn: u64) -> Option<
    PageSourceView,
> {
    match redo_chain(m, blknum, lsn as int) {
        Some(c) => Some(chain_source(c)),
        None => None,
    }
}

/// Where a page comes from.
#[derive(Debug)]
pub enum Reconstruction {
    /// A stored image is the page.
    Image(Bytes),
    /// Nothing was written to the block at or before the LSN.
    NeverWritten,
    /// There are records, but neither an image to replay them on nor a
    /// record that initialises the page.
    MissingBase { records: Vec<WALRecord> },
    /// The records are to be replayed, on the image if there is one.
    Redo { base_img: Option<Bytes>, records: Vec<WALRecord> },
}

impl View for Reconstruction {
    type V = PageSourceView;

    open spec fn view(&self) -> PageSourceView {
        match *self {
            Reconstruction::Image(img) => PageSourceView::Image(bytes_contents(img)),
            Reconstruction::NeverWritten => PageSourceView::NeverWritten,
            Reconstruction::MissingBase { records } => PageSourceView::MissingBase {
                records: records_view(records@),
            },
            Reconstruction::Redo { base_img, records } => PageSourceView::Redo {
                base_img: image_view(base_img),
                records: records_view(records@),
            },
        }
    }
}

/// A page of zeros.
pub fn zero_page() -> (r: Bytes)
    ensures
        bytes_contents(r) == zero_page_contents(),
{
    let r = Bytes::from(vec![0u8; PAGE_SIZE]);
    assert(bytes_contents(r) =~= zero_page_contents());
    r
}

/// Reversing a sequence with one more element at its end puts that element
/// first.
proof fn lemma_reverse_push<A>(s: Seq<A>, x: A)
    ensures
        s.push(x).reverse() == seq![x] + s.reverse(),
{
    assert(s.push(x).reverse() =~= seq![x] + s.reverse());
}

impl VersionHistory {
    /// Walks the versions of block `blknum` at or before `lsn` from the
    /// newest down and hands back the base image, if one was met, and clones
    /// of the records to replay, oldest first. `None` where the walk meets a
    /// version that holds neither.
    pub fn redo_chain_at(&self, blknum: u32, lsn: Lsn) -> (r: Option<
        (Option<Bytes>, Vec<WALRecord>),
    >)
        ensures
            match redo_chain(self@, blknum, lsn@ as int) {
                Some(c) => r matches Some((base_img, records)) && image_view(base_img)
                    == c.base_img && records_view(records@) == c.records,
                None => r is None,
            },
    {
        proof {
            use_type_invariant(self);
            self.lemma_view();
            lemma_entries_map_dom(self.entries());
        }
        let ghost m = self@;
        let ghost es = self.entries();
        let hi = self.upper_bound(blknum, lsn);
        let mut i: usize = hi;
        let mut collected: Vec<WALRecord> = Vec::new();
        let mut base_img: Option<Bytes> = None;
        let mut done = false;
        let ghost mut bound: int = lsn@ as int;
        proof {
            assert(records_view(collected@).reverse() =~= Seq::<WalRecordView>::empty());
            lemma_with_nothing_newer(redo_chain(m, blknum, bound));
            assert forall|j: int| 0 <= j < i && es[j].blknum == blknum implies (
            #[trigger] es[j]).lsn <= bound by {
                assert(!key_lt((blknum, lsn@), entry_key(es[j])));
            }
            assert forall|j: int| i <= j < es.len() && es[j].blknum == blknum implies (
            #[trigger] es[j]).lsn > bound by {
                assert(key_lt((blknum, lsn@), entry_key(es[j])));
            }
        }
        while i > 0 && !done
            invariant
                i <= hi <= es.len(),
                es == self.entries(),
                m == self@,
                m == entries_map(es),
                keys_ascending(es),
                forall|k: (u32, u64)| #[trigger] m.dom().contains(k) <==> has_key(es, k),
                -1 <= bound <= lsn@,
                forall|j: int|
                    0 <= j < i ==> !key_lt((blknum, lsn@), #[trigger] entry_key(es[j])),
                forall|j: int|
                    0 <= j < i && es[j].blknum == blknum ==> (#[trigger] es[j]).lsn <= bound,
                forall|j: int|
                    i <= j < es.len() && es[j].blknum == blknum ==> (#[trigger] es[j]).lsn
                        > bound,
                !done ==> base_img is None,
                !done ==> redo_chain(m, blknum, lsn@ as int) == with_newer(
                    redo_chain(m, blknum, bound),
                    records_view(collected@).reverse(),
                ),
                done ==> redo_chain(m, blknum, lsn@ as int) == Some(
                    RedoChain {
                        base_img: image_view(base_img),
                        records: records_view(collected@).reverse(),
                    },
                ),
            decreases i, (if done { 0int } else { 1int }),
        {
            let entry = self.entry_at(i - 1);
            let ghost e = es[i - 1];
            let ghost newer = records_view(collected@).reverse();
            if entry.blknum != blknum {
                proof {
                    assert(!key_lt((blknum, lsn@), entry_key(e)));
                    assert forall|l: u64| -1 < l <= bound implies !m.dom().contains(
                        (blknum, l),
                    ) by {
                        lemma_not_written(es, blknum, l, i as int, bound);
                    }
                    lemma_redo_chain_skip(m, blknum, -1, bound);
                    assert(Seq::<WalRecordView>::empty() + newer =~= newer);
                }
                done = true;
            } else {
                let ghost at = e.lsn as int;
                proof {
                    assert forall|l: u64| at < l <= bound implies !m.dom().contains(
                        (blknum, l),
                    ) by {
                        if has_key(es, (blknum, l)) {
                            let j = choose|j: int|
                                0 <= j < es.len() && #[trigger] entry_key(es[j]) == (blknum, l);
                            if j < i - 1 {
                                assert(key_lt(entry_key(es[j]), entry_key(es[i - 1])));
                            } else if j >= i {
                                assert(es[j].lsn > bound);
                            }
                        }
                    }
                    lemma_redo_chain_skip(m, blknum, at, bound);
                    lemma_entries_map_value(es, i - 1);
                    assert(entry_key(e) == (blknum, at as u64));
                }
                match &entry.version.page_image {
                    Some(img) => {
                        base_img = Some(img.clone());
                        done = true;
                        proof {
                            assert(Seq::<WalRecordView>::empty() + newer =~= newer);
                        }
                    },
                    None => {
                        match &entry.version.record {
                            Some(rec) => {
                                let ghost before = collected@;
                                collected.push(rec.clone());
                                proof {
                                    assert(records_view(collected@) =~= records_view(before).push(
                                        rec@,
                                    ));
                                    lemma_reverse_push(records_view(before), rec@);
                                    let older = redo_chain(m, blknum, at - 1);
                                    if older is Some {
                                        assert((older->0.records + seq![rec@]) + newer
                                            =~= older->0.records + (seq![rec@] + newer));
                                    }
                                }
                                if rec.will_init {
                                    done = true;
                                } else {
                                    proof {
                                        assert forall|j: int|
                                            0 <= j < i - 1 && es[j].blknum == blknum implies (
                                        #[trigger] es[j]).lsn <= at - 1 by {
                                            assert(key_lt(entry_key(es[j]), entry_key(es[i - 1])));
                                        }
                                        bound = at - 1;
                                    }
                                }
                            },
                            None => {
                                return None;
                            },
                        }
                    },
                }
                if !done {
                    i = i - 1;
                }
            }
        }
        proof {
            if !done {
                assert forall|l: u64| -1 < l <= bound implies !m.dom().contains((blknum, l)) by {
                    lemma_not_written(es, blknum, l, 0, bound);
                }
                lemma_redo_chain_skip(m, blknum, -1, bound);
                let newer = records_view(collected@).reverse();
                assert(Seq::<WalRecordView>::empty() + newer =~= newer);
            }
        }
        let ghost target = records_view(collected@).reverse();
        let mut records: Vec<WALRecord> = Vec::new();
        assert(records_view(records@) + records_view(collected@).reverse() =~= target);
        while collected.len() > 0
            invariant
                records_view(records@) + records_view(collected@).reverse() == target,
            decreases collected.len(),
        {
            let ghost left = collected@;
            let ghost have = records@;
            let rec = collected.pop().unwrap();
            records.push(rec);
            proof {
                assert(records_view(left) =~= records_view(collected@).push(rec@));
                lemma_reverse_push(records_view(collected@), rec@);
                assert(records_view(records@) =~= records_view(have).push(rec@));
                assert(records_view(have).push(rec@) + records_view(collected@).reverse()
                    =~= records_view(have) + (seq![rec@] + records_view(collected@).reverse()));
            }
        }
        proof {
            assert(records_view(collected@).reverse() =~= Seq::<WalRecordView>::empty());
            assert(records_view(records@) + Seq::<WalRecordView>::empty() =~= records_view(
                records@,
            ));
        }
        Some((base_img, records))
    }
}

impl VersionHistory {
    /// Where the page of block `blknum` as of `lsn` comes from. `None`
    /// where a version that is needed holds neither an image nor a record.
    pub fn page_source_at(&self, blknum: u32, lsn: Lsn) -> (r: Option<Reconstruction>)
        ensures
            match page_source(self@, blknum, lsn@) {
                Some(source) => r matches Some(found) && found@ == source,
                None => r is None,
            },
    {
        match self.redo_chain_at(blknum, lsn) {
            None => None,
            Some((base_img, records)) => {
                if records.len() == 0 {
                    assert(records_view(records@).len() == 0);
                    match base_img {
                        Some(img) => Some(Reconstruction::Image(img)),
                        None => Some(Reconstruction::NeverWritten),
                    }
                } else {
                    assert(records_view(records@)[0] == records@[0]@);
                    if base_img.is_none() && !records[0].will_init {
                        Some(Reconstruction::MissingBase { records })
                    } else {
                        Some(Reconstruction::Redo { base_img, records })
                    }
                }
            },
        }
    }
}

/// A chain with no records added is the chain.
proof fn lemma_with_nothing_newer(c: Option<RedoChain>)
    ensures
        with_newer(c, Seq::<WalRecordView>::empty()) == c,
{
    if c is Some {
        assert(c->0.records + Seq::<WalRecordView>::empty() =~= c->0.records);
    }
}

/// Nothing was written to the block at or before `bound` where every entry
/// of the block from place `i` on is newer than `bound` and the entries
/// before place `i`, if there are any, belong to other blocks.
proof fn lemma_not_written(
    es: Seq<VersionEntryView>,
    blknum: u32,
    l: u64,
    i: int,
    bound: int,
)
    requires
        keys_ascending(es),
        0 <= i <= es.len(),
        l <= bound,
        forall|j: int|
            i <= j < es.len() && es[j].blknum == blknum ==> (#[trigger] es[j]).lsn > bound,
        i > 0 ==> es[i - 1].blknum != blknum,
        forall|j: int| 0 <= j < i ==> (#[trigger] entry_key(es[j])).0 <= blknum,
    ensures
        !has_key(es, (blknum, l)),
{
    if has_key(es, (blknum, l)) {
        let j = choose|j: int| 0 <= j < es.len() && #[trigger] entry_key(es[j]) == (blknum, l);
        if j < i - 1 {
            assert(key_lt(entry_key(es[j]), entry_key(es[i - 1])));
            assert(entry_key(es[i - 1]).0 <= blknum);
        } else if j >= i {
            assert(es[j].lsn > bound);
        }
    }
}

} // verus!
