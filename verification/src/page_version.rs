//! Page versions and the version history of a relation: what was written to
//! each block, and at which LSN.

use crate::byte_buf::bytes_contents;
use crate::lsn::Lsn;
use crate::repository::{WALRecord, WalRecordView};
use bytes::Bytes;
use vstd::prelude::*;

verus! {

/// One version of a page: a full image of it, or a WAL record to replay on
/// an older version. One that holds neither is corrupt.
#[derive(Debug)]
pub struct PageVersion {
    pub page_image: Option<Bytes>,
    pub record: Option<WALRecord>,
}

/// A page version as a mathematical value.
pub struct PageVersionView {
    pub page_image: Option<Seq<u8>>,
    pub record: Option<WalRecordView>,
}

impl View for PageVersion {
    type V = PageVersionView;

    open spec fn view(&self) -> PageVersionView {
        PageVersionView {
            page_image: match self.page_image {
                Some(img) => Some(bytes_contents(img)),
                None => None,
            },
            record: match self.record {
                Some(rec) => Some(rec@),
                None => None,
            },
        }
    }
}

impl Clone for PageVersion {
    fn clone(&self) -> (r: Self)
        ensures
            r@ == self@,
    {
        PageVersion {
            page_image: match &self.page_image {
                Some(img) => Some(img.clone()),
                None => None,
            },
            record: match &self.record {
                Some(rec) => Some(rec.clone()),
                None => None,
            },
        }
    }
}

/// A page version with the block and the LSN that it belongs to.
#[derive(Debug)]
pub struct VersionEntry {
    pub blknum: u32,
    pub lsn: Lsn,
    pub version: PageVersion,
}

/// An entry of a version history as a mathematical value.
pub struct VersionEntryView {
    pub blknum: u32,
    pub lsn: u64,
    pub version: PageVersionView,
}

impl View for VersionEntry {
    type V = VersionEntryView;

    open spec fn view(&self) -> VersionEntryView {
        VersionEntryView { blknum: self.blknum, lsn: self.lsn@, version: self.version@ }
    }
}

impl Clone for VersionEntry {
    fn clone(&self) -> (r: Self)
        ensures
            r@ == self@,
    {
        VersionEntry { blknum: self.blknum, lsn: self.lsn, version: self.version.clone() }
    }
}

/// The order of the keys: by block number first, then by LSN.
pub open spec fn key_lt(a: (u32, u64), b: (u32, u64)) -> bool {
    a.0 < b.0 || (a.0 == b.0 && a.1 < b.1)
}

/// An entry's key.
pub open spec fn entry_key(e: VersionEntryView) -> (u32, u64) {
    (e.blknum, e.lsn)
}

/// The entries stand in the order of their keys, each key once.
pub open spec fn keys_ascending(es: Seq<VersionEntryView>) -> bool {
    forall|i: int, j: int|
        0 <= i < j < es.len() ==> key_lt(#[trigger] entry_key(es[i]), #[trigger] entry_key(es[j]))
}

/// Some entry has this key.
pub open spec fn has_key(es: Seq<VersionEntryView>, k: (u32, u64)) -> bool {
    exists|i: int| 0 <= i < es.len() && #[trigger] entry_key(es[i]) == k
}

/// The mapping that entries make when they are entered one after another:
/// of two entries with one key the later one stays.
pub open spec fn entries_map(es: Seq<VersionEntryView>) -> Map<(u32, u64), PageVersionView>
    decreases es.len(),
{
    if es.len() == 0 {
        Map::empty()
    } else {
        entries_map(es.drop_last()).insert(entry_key(es.last()), es.last().version)
    }
}

/// The keys of the mapping are those of the entries.
pub proof fn lemma_entries_map_dom(es: Seq<VersionEntryView>)
    ensures
        forall|k: (u32, u64)| #[trigger] entries_map(es).dom().contains(k) <==> has_key(es, k),
    decreases es.len(),
{
    if es.len() > 0 {
        let front = es.drop_last();
        lemma_entries_map_dom(front);
        assert forall|k: (u32, u64)| #[trigger]
            entries_map(es).dom().contains(k) <==> has_key(es, k) by {
            assert(entries_map(es) == entries_map(front).insert(
                entry_key(es.last()),
                es.last().version,
            ));
            if has_key(es, k) {
                let i = choose|i: int| 0 <= i < es.len() && #[trigger] entry_key(es[i]) == k;
                if i < es.len() - 1 {
                    assert(entry_key(front[i]) == k);
                    assert(has_key(front, k));
                    assert(entries_map(front).dom().contains(k));
                }
            }
            if entries_map(es).dom().contains(k) {
                if k == entry_key(es.last()) {
                    assert(entry_key(es[es.len() - 1]) == k);
                } else {
                    assert(entries_map(front).dom().contains(k));
                    assert(has_key(front, k));
                    let i = choose|i: int|
                        0 <= i < front.len() && #[trigger] entry_key(front[i]) == k;
                    assert(entry_key(es[i]) == k);
                }
            }
        }
    }
}

/// Where each key stands once, the mapping holds each entry's version under
/// the entry's key.
pub proof fn lemma_entries_map_value(es: Seq<VersionEntryView>, i: int)
    requires
        keys_ascending(es),
        0 <= i < es.len(),
    ensures
        entries_map(es).dom().contains(entry_key(es[i])),
        entries_map(es)[entry_key(es[i])] == es[i].version,
    decreases es.len(),
{
    if i < es.len() - 1 {
        let front = es.drop_last();
        assert(keys_ascending(front)) by {
            assert forall|a: int, b: int| 0 <= a < b < front.len() implies key_lt(
                #[trigger] entry_key(front[a]),
                #[trigger] entry_key(front[b]),
            ) by {
                assert(key_lt(entry_key(es[a]), entry_key(es[b])));
            }
        }
        lemma_entries_map_value(front, i);
        assert(front[i] == es[i]);
        assert(key_lt(entry_key(es[i]), entry_key(es[es.len() - 1])));
    }
}

/// Entering an entry at its place in the order adds it to the mapping.
pub proof fn lemma_insert_entry(es: Seq<VersionEntryView>, n: int, e: VersionEntryView)
    requires
        keys_ascending(es),
        0 <= n <= es.len(),
        forall|j: int| 0 <= j < n ==> key_lt(#[trigger] entry_key(es[j]), entry_key(e)),
        forall|j: int| n <= j < es.len() ==> key_lt(entry_key(e), #[trigger] entry_key(es[j])),
    ensures
        keys_ascending(es.insert(n, e)),
        entries_map(es.insert(n, e)) == entries_map(es).insert(entry_key(e), e.version),
{
    let after = es.insert(n, e);
    assert forall|a: int, b: int| 0 <= a < b < after.len() implies key_lt(
        #[trigger] entry_key(after[a]),
        #[trigger] entry_key(after[b]),
    ) by {
        let a0 = if a < n { a } else { a - 1 };
        let b0 = if b < n { b } else { b - 1 };
        if a == n {
            assert(after[b] == es[b - 1]);
        } else if b == n {
            assert(after[a] == es[a]);
        } else {
            assert(after[a] == es[a0]);
            assert(after[b] == es[b0]);
            assert(key_lt(entry_key(es[a0]), entry_key(es[b0])));
        }
    }
    lemma_entries_map_dom(es);
    lemma_entries_map_dom(after);
    let m1 = entries_map(after);
    let m2 = entries_map(es).insert(entry_key(e), e.version);
    assert forall|k: (u32, u64)| m1.dom().contains(k) <==> m2.dom().contains(k) by {
        if has_key(after, k) {
            let i = choose|i: int| 0 <= i < after.len() && #[trigger] entry_key(after[i]) == k;
            if i < n {
                assert(entry_key(es[i]) == k);
            } else if i > n {
                assert(entry_key(es[i - 1]) == k);
            }
        }
        if has_key(es, k) {
            let i = choose|i: int| 0 <= i < es.len() && #[trigger] entry_key(es[i]) == k;
            if i < n {
                assert(entry_key(after[i]) == k);
            } else {
                assert(entry_key(after[i + 1]) == k);
            }
        }
        if k == entry_key(e) {
            assert(entry_key(after[n]) == k);
        }
    }
    assert forall|k: (u32, u64)| m1.dom().contains(k) implies m1[k] == m2[k] by {
        let i = choose|i: int| 0 <= i < after.len() && #[trigger] entry_key(after[i]) == k;
        lemma_entries_map_value(after, i);
        if i < n {
            lemma_entries_map_value(es, i);
            assert(after[i] == es[i]);
        } else if i > n {
            lemma_entries_map_value(es, i - 1);
            assert(after[i] == es[i - 1]);
        }
    }
    assert(m1 =~= m2);
}

/// Putting an entry in the place of one with the same key replaces that
/// key's version in the mapping.
pub proof fn lemma_replace_entry(es: Seq<VersionEntryView>, n: int, e: VersionEntryView)
    requires
        keys_ascending(es),
        0 <= n < es.len(),
        entry_key(es[n]) == entry_key(e),
    ensures
        keys_ascending(es.update(n, e)),
        entries_map(es.update(n, e)) == entries_map(es).insert(entry_key(e), e.version),
{
    let after = es.update(n, e);
    assert forall|a: int, b: int| 0 <= a < b < after.len() implies key_lt(
        #[trigger] entry_key(after[a]),
        #[trigger] entry_key(after[b]),
    ) by {
        assert(key_lt(entry_key(es[a]), entry_key(es[b])));
    }
    lemma_entries_map_dom(es);
    lemma_entries_map_dom(after);
    let m1 = entries_map(after);
    let m2 = entries_map(es).insert(entry_key(e), e.version);
    assert forall|k: (u32, u64)| m1.dom().contains(k) <==> m2.dom().contains(k) by {
        if has_key(after, k) {
            let i = choose|i: int| 0 <= i < after.len() && #[trigger] entry_key(after[i]) == k;
            assert(entry_key(es[i]) == k);
        }
        if has_key(es, k) {
            let i = choose|i: int| 0 <= i < es.len() && #[trigger] entry_key(es[i]) == k;
            assert(entry_key(after[i]) == k);
        }
        if k == entry_key(e) {
            assert(entry_key(after[n]) == k);
        }
    }
    assert forall|k: (u32, u64)| m1.dom().contains(k) implies m1[k] == m2[k] by {
        let i = choose|i: int| 0 <= i < after.len() && #[trigger] entry_key(after[i]) == k;
        lemma_entries_map_value(after, i);
        if i != n {
            lemma_entries_map_value(es, i);
            assert(key_lt(entry_key(es[i]), entry_key(es[n])) || key_lt(
                entry_key(es[n]),
                entry_key(es[i]),
            ));
        }
    }
    assert(m1 =~= m2);
}

/// Whether the key `(blk_a, lsn_a)` is at most `(blk_b, lsn_b)`.
pub fn key_le(blk_a: u32, lsn_a: Lsn, blk_b: u32, lsn_b: Lsn) -> (b: bool)
    ensures
        b == !key_lt((blk_b, lsn_b@), (blk_a, lsn_a@)),
{
    blk_a < blk_b || (blk_a == blk_b && lsn_a.0 <= lsn_b.0)
}

/// The version history of a relation: an ordered mapping from block number
/// and LSN to the page version written there.
pub struct VersionHistory {
    entries: Vec<VersionEntry>,
}

impl View for VersionHistory {
    type V = Map<(u32, u64), PageVersionView>;

    /// The history as a mapping from `(block number, LSN)`.
    closed spec fn view(&self) -> Map<(u32, u64), PageVersionView> {
        entries_map(self.entries())
    }
}

impl VersionHistory {
    /// The entries of the history in the order of their keys.
    pub closed spec fn entries(&self) -> Seq<VersionEntryView> {
        self.entries@.map_values(|e: VersionEntry| e@)
    }

    /// The entries are kept in the order of their keys, each key once.
    #[verifier::type_invariant]
    pub open spec fn wf(&self) -> bool {
        keys_ascending(self.entries())
    }

    /// The mapping of a history is that of its entries.
    pub proof fn lemma_view(&self)
        ensures
            self@ == entries_map(self.entries()),
    {
    }

    /// A history without versions.
    pub fn new() -> (h: Self)
        ensures
            h.entries() == Seq::<VersionEntryView>::empty(),
            h@ == Map::<(u32, u64), PageVersionView>::empty(),
    {
        let h = VersionHistory { entries: Vec::new() };
        assert(h.entries() =~= Seq::<VersionEntryView>::empty());
        h
    }

    /// How many versions the history holds.
    pub fn len(&self) -> (n: usize)
        ensures
            n == self.entries().len(),
    {
        self.entries.len()
    }

    /// The entry at place `i` in the order of the keys.
    pub fn entry_at(&self, i: usize) -> (e: &VersionEntry)
        requires
            i < self.entries().len(),
        ensures
            e@ == self.entries()[i as int],
    {
        &self.entries[i]
    }

    /// How many entries have a key of at most `(blknum, lsn)`: they are the
    /// first so many.
    pub fn upper_bound(&self, blknum: u32, lsn: Lsn) -> (n: usize)
        ensures
            n <= self.entries().len(),
            forall|j: int|
                0 <= j < n ==> !key_lt((blknum, lsn@), #[trigger] entry_key(self.entries()[j])),
            forall|j: int|
                n <= j < self.entries().len() ==> key_lt(
                    (blknum, lsn@),
                    #[trigger] entry_key(self.entries()[j]),
                ),
    {
        proof {
            use_type_invariant(self);
        }
        let mut lo: usize = 0;
        let mut hi: usize = self.entries.len();
        while lo < hi
            invariant
                lo <= hi <= self.entries().len(),
                self.entries().len() == self.entries@.len(),
                keys_ascending(self.entries()),
                forall|j: int|
                    0 <= j < lo ==> !key_lt(
                        (blknum, lsn@),
                        #[trigger] entry_key(self.entries()[j]),
                    ),
                forall|j: int|
                    hi <= j < self.entries().len() ==> key_lt(
                        (blknum, lsn@),
                        #[trigger] entry_key(self.entries()[j]),
                    ),
            decreases hi - lo,
        {
            let mid = lo + (hi - lo) / 2;
            let e = &self.entries[mid];
            assert(e@ == self.entries()[mid as int]);
            if key_le(e.blknum, e.lsn, blknum, lsn) {
                assert forall|j: int| 0 <= j < mid + 1 implies !key_lt(
                    (blknum, lsn@),
                    #[trigger] entry_key(self.entries()[j]),
                ) by {
                    if j < mid {
                        assert(key_lt(
                            entry_key(self.entries()[j]),
                            entry_key(self.entries()[mid as int]),
                        ));
                    }
                }
                lo = mid + 1;
            } else {
                assert forall|j: int| mid <= j < self.entries().len() implies key_lt(
                    (blknum, lsn@),
                    #[trigger] entry_key(self.entries()[j]),
                ) by {
                    if j > mid {
                        assert(key_lt(
                            entry_key(self.entries()[mid as int]),
                            entry_key(self.entries()[j]),
                        ));
                    }
                }
                hi = mid;
            }
        }
        lo
    }

    /// Enters a version under `(blknum, lsn)`; one that was there is
    /// replaced.
    pub fn insert(&mut self, blknum: u32, lsn: Lsn, version: PageVersion)
        ensures
            final(self)@ == old(self)@.insert((blknum, lsn@), version@),
    {
        proof {
            use_type_invariant(&*self);
        }
        let n = self.upper_bound(blknum, lsn);
        let entry = VersionEntry { blknum, lsn, version };
        let ghost before = self.entries();
        if n > 0 && self.entries[n - 1].blknum == blknum && self.entries[n - 1].lsn.0 == lsn.0 {
            assert(entry_key(before[n - 1]) == entry_key(entry@));
            proof {
                lemma_replace_entry(before, n - 1, entry@);
            }
            // The entries are taken out to be changed and put back in order.
            let mut entries: Vec<VersionEntry> = Vec::new();
            core::mem::swap(&mut self.entries, &mut entries);
            entries[n - 1] = entry;
            assert(entries@.map_values(|e: VersionEntry| e@) =~= before.update(n - 1, entry@));
            self.entries = entries;
        } else {
            proof {
                assert forall|j: int| 0 <= j < n implies key_lt(
                    #[trigger] entry_key(before[j]),
                    entry_key(entry@),
                ) by {
                    if j < n - 1 {
                        assert(key_lt(entry_key(before[j]), entry_key(before[n - 1])));
                    }
                }
            }
            proof {
                lemma_insert_entry(before, n as int, entry@);
            }
            // The entries are taken out to be changed and put back in order.
            let mut entries: Vec<VersionEntry> = Vec::new();
            core::mem::swap(&mut self.entries, &mut entries);
            entries.insert(n, entry);
            assert(entries@.map_values(|e: VersionEntry| e@) =~= before.insert(n as int, entry@));
            self.entries = entries;
        }
    }

    /// The version entered under `(blknum, lsn)`, if there is one.
    pub fn get(&self, blknum: u32, lsn: Lsn) -> (r: Option<&PageVersion>)
        ensures
            r is Some <==> self@.dom().contains((blknum, lsn@)),
            r matches Some(v) ==> v@ == self@[(blknum, lsn@)],
    {
        proof {
            use_type_invariant(self);
            lemma_entries_map_dom(self.entries());
        }
        let n = self.upper_bound(blknum, lsn);
        if n > 0 && self.entries[n - 1].blknum == blknum && self.entries[n - 1].lsn.0 == lsn.0 {
            proof {
                assert(self.entries@[n - 1]@ == self.entries()[n - 1]);
                lemma_entries_map_value(self.entries(), n - 1);
            }
            Some(&self.entries[n - 1].version)
        } else {
            proof {
                if has_key(self.entries(), (blknum, lsn@)) {
                    let i = choose|i: int|
                        0 <= i < self.entries().len() && #[trigger] entry_key(self.entries()[i])
                            == (blknum, lsn@);
                    if i < n - 1 {
                        assert(key_lt(
                            entry_key(self.entries()[i]),
                            entry_key(self.entries()[n - 1]),
                        ));
                    }
                    assert(self.entries@[n - 1]@ == self.entries()[n - 1]);
                }
            }
            None
        }
    }
}

} // verus!
