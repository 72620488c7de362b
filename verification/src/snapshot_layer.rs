//! The snapshot layer: a frozen layer that holds all page versions and
//! sizes of one relation in a range of LSNs, as it is stored in its two
//! files.
//!
//! A layer is made from finished histories or loaded from its files, and
//! is never changed after that.

use crate::byte_buf::bytes_contents;
use crate::layer_file::{
    dec_size_history, dec_version_history, decode_size_history, decode_version_history,
    enc_size_history, enc_version_history, encodable_versions, encode_size_history,
    encode_version_history, lemma_size_history_roundtrip, lemma_version_history_roundtrip,
};
use crate::layer_name::{
    file_name_for, layer_of_entry, lemma_file_name_roundtrip, relsizes_file_name,
    relsizes_suffix, spec_file_name, spec_layer_of_entry,
};
use crate::lsn::Lsn;
use crate::page_version::{
    entries_map, PageVersion, PageVersionView, VersionEntryView, VersionHistory,
};
use crate::reconstruct::{page_source, zero_page, PageSourceView, Reconstruction};
use crate::rel_size::{size_at, sizes_map, SizeHistory};
use crate::repository::{RelTag, ZTimelineId};
use crate::storage_layer::{redo_answer, source_answer, Layer, LayerError};
use crate::walredo::{WalRedoError, WalRedoManager};
use bytes::Bytes;
use vstd::prelude::*;

verus! {

/// A frozen layer in memory.
pub struct SnapshotLayer {
    pub timelineid: ZTimelineId,
    pub tag: RelTag,
    /// The layer holds what was written from `start_lsn` on, `start_lsn`
    /// included,
    pub start_lsn: Lsn,
    /// and before `end_lsn`.
    pub end_lsn: Lsn,
    page_versions: VersionHistory,
    relsizes: SizeHistory,
}

/// The two files of a layer: their names and what they hold.
#[derive(Debug)]
pub struct LayerFiles {
    pub file_name: String,
    pub page_versions: Vec<u8>,
    pub relsizes_file_name: String,
    pub relsizes: Vec<u8>,
}

/// The layer to load, and the names of the two files to read for it.
#[derive(Debug)]
pub struct LoadRequest {
    pub start_lsn: Lsn,
    pub end_lsn: Lsn,
    pub file_name: String,
    pub relsizes_file_name: String,
}

/// The names of the entries of a directory, as sequences of characters.
pub open spec fn names_view(names: Seq<String>) -> Seq<Seq<char>> {
    names.map_values(|s: String| s@)
}

/// The first LSN of the layer that a directory entry stands for.
pub open spec fn entry_start(name: Seq<char>) -> u64 {
    match spec_layer_of_entry(name) {
        Some((_tag, start, _end)) => start@,
        None => 0,
    }
}

/// The directory entry stands for a layer of `tag` that starts at or before
/// `lsn`.
pub open spec fn covers(name: Seq<char>, tag: RelTag, lsn: Lsn) -> bool {
    spec_layer_of_entry(name) matches Some((t, start, _end)) && t == tag && start@ <= lsn@
}

/// Entry number `i` is the one to pick for `tag` and `lsn`: of the entries
/// that cover them it starts last, and it is the first that starts there.
pub open spec fn is_latest(names: Seq<Seq<char>>, tag: RelTag, lsn: Lsn, i: int) -> bool {
    &&& 0 <= i < names.len()
    &&& covers(names[i], tag, lsn)
    &&& forall|j: int|
        0 <= j < names.len() && covers(#[trigger] names[j], tag, lsn) ==> entry_start(names[j])
            <= entry_start(names[i])
    &&& forall|j: int|
        0 <= j < i && covers(#[trigger] names[j], tag, lsn) ==> entry_start(names[j])
            < entry_start(names[i])
}

/// Whether `r` is the range of the layer to pick for `tag` and `lsn` among
/// the entries of a directory; `None` where no entry covers them.
pub open spec fn latest_in(
    names: Seq<Seq<char>>,
    tag: RelTag,
    lsn: Lsn,
    r: Option<(Lsn, Lsn)>,
) -> bool {
    match r {
        Some((start, end)) => exists|i: int| #[trigger]
            is_latest(names, tag, lsn, i) && spec_layer_of_entry(names[i]) == Some(
                (tag, start, end),
            ),
        None => forall|j: int| 0 <= j < names.len() ==> !covers(#[trigger] names[j], tag, lsn),
    }
}

/// The directory entry stands for a layer of relation `tag`, and `tag` is
/// in the tablespace and the database asked for; 0 asks for any.
pub open spec fn lists(name: Seq<char>, spcnode: u32, dbnode: u32, tag: RelTag) -> bool {
    &&& spec_layer_of_entry(name) matches Some((t, _start, _end)) && t == tag
    &&& spcnode == 0 || tag.spcnode == spcnode
    &&& dbnode == 0 || tag.dbnode == dbnode
}

/// Some directory entry lists the relation.
pub open spec fn listed(names: Seq<Seq<char>>, spcnode: u32, dbnode: u32, tag: RelTag) -> bool {
    exists|j: int| 0 <= j < names.len() && lists(#[trigger] names[j], spcnode, dbnode, tag)
}

/// The histories that the two files of a layer hold; `None` where one of
/// them is malformed.
pub open spec fn spec_load_histories(page_versions: Seq<u8>, relsizes: Seq<u8>) -> Option<
    (Map<(u32, u64), PageVersionView>, Map<u64, u32>),
> {
    match (dec_version_history(page_versions), dec_size_history(relsizes)) {
        (Some(versions), Some(sizes)) => Some((entries_map(versions), sizes_map(sizes))),
        _ => None,
    }
}

/// A relation is listed by the first `idx + 1` entries where the first
/// `idx` list it or entry number `idx` does.
proof fn lemma_listed_more(
    names: Seq<Seq<char>>,
    idx: int,
    spcnode: u32,
    dbnode: u32,
    tag: RelTag,
)
    requires
        0 <= idx < names.len(),
    ensures
        listed(names.take(idx + 1), spcnode, dbnode, tag) <==> (listed(
            names.take(idx),
            spcnode,
            dbnode,
            tag,
        ) || lists(names[idx], spcnode, dbnode, tag)),
{
    let seen = names.take(idx);
    let more = names.take(idx + 1);
    if listed(seen, spcnode, dbnode, tag) {
        let j = choose|j: int| 0 <= j < seen.len() && lists(#[trigger] seen[j], spcnode, dbnode, tag);
        assert(more[j] == seen[j]);
    }
    if lists(names[idx], spcnode, dbnode, tag) {
        assert(more[idx] == names[idx]);
    }
    if listed(more, spcnode, dbnode, tag) {
        let j = choose|j: int| 0 <= j < more.len() && lists(#[trigger] more[j], spcnode, dbnode, tag);
        if j < idx {
            assert(seen[j] == more[j]);
        } else {
            assert(more[j] == names[idx]);
        }
    }
}

/// What a sequence with one more element holds.
proof fn lemma_push_contains(s: Seq<RelTag>, t: RelTag, tag: RelTag)
    ensures
        s.push(t).contains(tag) <==> (s.contains(tag) || tag == t),
{
    let longer = s.push(t);
    if s.contains(tag) {
        let k = choose|k: int| 0 <= k < s.len() && s[k] == tag;
        assert(longer[k] == tag);
    }
    if tag == t {
        assert(longer[s.len() as int] == tag);
    }
    if longer.contains(tag) {
        let k = choose|k: int| 0 <= k < longer.len() && longer[k] == tag;
        if k < s.len() {
            assert(s[k] == tag);
        }
    }
}

/// A sequence without duplicates stays so when an element is added that it
/// did not hold.
proof fn lemma_push_new(s: Seq<RelTag>, t: RelTag)
    requires
        s.no_duplicates(),
        !s.contains(t),
    ensures
        s.push(t).no_duplicates(),
{
    let longer = s.push(t);
    assert forall|i: int, j: int| 0 <= i < longer.len() && 0 <= j < longer.len() && i != j implies longer[i] != longer[j] by {
        if i < s.len() && j < s.len() {
            assert(s[i] != s[j]);
        } else if i < s.len() {
            assert(s.contains(s[i]));
        } else {
            assert(s.contains(s[j]));
        }
    }
}

/// Whether the vector holds the tag.
fn has_tag(rels: &Vec<RelTag>, tag: RelTag) -> (b: bool)
    ensures
        b == rels@.contains(tag),
{
    let mut i: usize = 0;
    while i < rels.len()
        invariant
            i <= rels.len(),
            forall|j: int| 0 <= j < i ==> rels@[j] != tag,
        decreases rels.len() - i,
    {
        if rels[i] == tag {
            return true;
        }
        i = i + 1;
    }
    false
}

impl SnapshotLayer {
    /// The entries of the version history in the order of their keys.
    pub closed spec fn version_entries(&self) -> Seq<VersionEntryView> {
        self.page_versions.entries()
    }

    /// The entries of the size history in the order of their LSNs.
    pub closed spec fn size_entries(&self) -> Seq<(u64, u32)> {
        self.relsizes.entries()
    }

    /// `files` are the files of this layer.
    pub open spec fn saved_as(&self, files: LayerFiles) -> bool {
        &&& files.file_name@ == spec_file_name(self.rel_tag(), self.first_lsn(), self.last_lsn())
        &&& files.relsizes_file_name@ == files.file_name@ + relsizes_suffix()
        &&& files.page_versions@ == enc_version_history(self.version_entries())
        &&& files.relsizes@ == enc_size_history(self.size_entries())
        &&& encodable_versions(self.version_entries())
        &&& self.size_entries().len() <= u64::MAX
    }

    /// The version history.
    pub fn versions(&self) -> (h: &VersionHistory)
        ensures
            h@ == self.page_versions(),
    {
        &self.page_versions
    }

    /// The size history.
    pub fn sizes(&self) -> (h: &SizeHistory)
        ensures
            h@ == self.rel_sizes(),
    {
        &self.relsizes
    }

    /// Makes a layer of two finished histories, and the files to store it
    /// in. Files of the same names that are there already are to be
    /// overwritten.
    pub fn create(
        timelineid: ZTimelineId,
        tag: RelTag,
        start_lsn: Lsn,
        end_lsn: Lsn,
        page_versions: VersionHistory,
        relsizes: SizeHistory,
    ) -> (r: (SnapshotLayer, LayerFiles))
        ensures
            r.0.timeline() == timelineid,
            r.0.rel_tag() == tag,
            r.0.first_lsn() == start_lsn,
            r.0.last_lsn() == end_lsn,
            r.0.page_versions() == page_versions@,
            r.0.rel_sizes() == relsizes@,
            r.0.saved_as(r.1),
    {
        let layer = SnapshotLayer { timelineid, tag, start_lsn, end_lsn, page_versions, relsizes };
        let files = layer.save();
        (layer, files)
    }

    /// The name of the file that holds this layer's version history.
    pub fn file_name(&self) -> (name: String)
        ensures
            name@ == spec_file_name(self.rel_tag(), self.first_lsn(), self.last_lsn()),
    {
        file_name_for(self.tag, self.start_lsn, self.end_lsn)
    }

    /// The two files of this layer.
    pub fn save(&self) -> (files: LayerFiles)
        ensures
            self.saved_as(files),
    {
        let file_name = self.file_name();
        let relsizes_file_name = relsizes_file_name(file_name.as_str());
        let page_versions = encode_version_history(&self.page_versions);
        let relsizes = encode_size_history(&self.relsizes);
        LayerFiles { file_name, page_versions, relsizes_file_name, relsizes }
    }

    /// Among the entries of a timeline's directory, finds the layer of
    /// `tag` that starts last at or before `lsn`, and hands back its range.
    /// Names that are not those of layers are passed over, and so are the
    /// files of relation sizes. Of two layers with one start, the one that
    /// comes first in `names` is picked.
    pub fn find_latest_snapshot_file(names: &Vec<String>, tag: RelTag, lsn: Lsn) -> (r: Option<
        (Lsn, Lsn),
    >)
        ensures
            latest_in(names_view(names@), tag, lsn, r),
    {
        let ghost view = names_view(names@);
        let mut best: Option<(Lsn, Lsn)> = None;
        let ghost mut best_i: int = 0;
        let mut idx: usize = 0;
        while idx < names.len()
            invariant
                idx <= names.len(),
                view == names_view(names@),
                best is None ==> forall|j: int|
                    0 <= j < idx ==> !covers(#[trigger] view[j], tag, lsn),
                best matches Some((start, end)) ==> {
                    &&& 0 <= best_i < idx
                    &&& covers(view[best_i], tag, lsn)
                    &&& spec_layer_of_entry(view[best_i]) == Some((tag, start, end))
                    &&& forall|j: int|
                        0 <= j < idx && covers(#[trigger] view[j], tag, lsn) ==> entry_start(
                            view[j],
                        ) <= start@
                    &&& forall|j: int|
                        0 <= j < best_i && covers(#[trigger] view[j], tag, lsn) ==> entry_start(
                            view[j],
                        ) < start@
                },
            decreases names.len() - idx,
        {
            assert(view[idx as int] == names@[idx as int]@);
            match layer_of_entry(names[idx].as_str()) {
                Some((t, start, end)) => {
                    if t == tag && start.0 <= lsn.0 {
                        let better = match best {
                            Some((s, _e)) => start.0 > s.0,
                            None => true,
                        };
                        if better {
                            best = Some((start, end));
                            proof {
                                best_i = idx as int;
                            }
                        }
                    }
                },
                None => {},
            }
            idx = idx + 1;
        }
        proof {
            if best is Some {
                assert(is_latest(view, tag, lsn, best_i));
            }
        }
        best
    }

    /// The first step of loading the layer of `tag` that covers `lsn`: finds
    /// it among the entries of the timeline's directory and names the two
    /// files to read. `None` where no layer covers `lsn`.
    pub fn load(names: &Vec<String>, tag: RelTag, lsn: Lsn) -> (r: Option<LoadRequest>)
        ensures
            match r {
                Some(req) => latest_in(
                    names_view(names@),
                    tag,
                    lsn,
                    Some((req.start_lsn, req.end_lsn)),
                ) && req.file_name@ == spec_file_name(tag, req.start_lsn, req.end_lsn)
                    && req.relsizes_file_name@ == req.file_name@ + relsizes_suffix(),
                None => latest_in(names_view(names@), tag, lsn, None),
            },
    {
        match Self::find_latest_snapshot_file(names, tag, lsn) {
            Some((start_lsn, end_lsn)) => {
                let file_name = file_name_for(tag, start_lsn, end_lsn);
                let relsizes_file_name = relsizes_file_name(file_name.as_str());
                Some(LoadRequest { start_lsn, end_lsn, file_name, relsizes_file_name })
            },
            None => None,
        }
    }

    /// The second step of loading: makes the layer of what its two files
    /// hold. An error says which file is malformed; the file with the
    /// version history is looked at first.
    pub fn load_path(
        timelineid: ZTimelineId,
        tag: RelTag,
        start_lsn: Lsn,
        end_lsn: Lsn,
        page_versions: &[u8],
        relsizes: &[u8],
    ) -> (r: Result<SnapshotLayer, LayerError>)
        ensures
            match dec_version_history(page_versions@) {
                None => r matches Err(LayerError::MalformedPageVersions),
                Some(versions) => match dec_size_history(relsizes@) {
                    None => r matches Err(LayerError::MalformedRelSizes),
                    Some(sizes) => r matches Ok(layer) && layer.timeline() == timelineid
                        && layer.rel_tag() == tag && layer.first_lsn() == start_lsn
                        && layer.last_lsn() == end_lsn && layer.page_versions() == entries_map(
                        versions,
                    ) && layer.rel_sizes() == sizes_map(sizes),
                },
            },
    {
        let page_versions = match decode_version_history(page_versions) {
            Some(h) => h,
            None => {
                return Err(LayerError::MalformedPageVersions);
            },
        };
        let relsizes = match decode_size_history(relsizes) {
            Some(h) => h,
            None => {
                return Err(LayerError::MalformedRelSizes);
            },
        };
        Ok(SnapshotLayer { timelineid, tag, start_lsn, end_lsn, page_versions, relsizes })
    }

    /// The relations that have a layer among the entries of a timeline's
    /// directory, each once, as far as they are in tablespace `spcnode` and
    /// database `dbnode`; 0 stands for any.
    pub fn list_rels(names: &Vec<String>, spcnode: u32, dbnode: u32) -> (rels: Vec<RelTag>)
        ensures
            rels@.no_duplicates(),
            forall|tag: RelTag| #[trigger]
                rels@.contains(tag) <==> listed(names_view(names@), spcnode, dbnode, tag),
    {
        let ghost view = names_view(names@);
        let mut rels: Vec<RelTag> = Vec::new();
        let mut idx: usize = 0;
        while idx < names.len()
            invariant
                idx <= names.len(),
                view == names_view(names@),
                rels@.no_duplicates(),
                forall|tag: RelTag| #[trigger]
                    rels@.contains(tag) <==> listed(view.take(idx as int), spcnode, dbnode, tag),
            decreases names.len() - idx,
        {
            assert(view[idx as int] == names@[idx as int]@);
            let ghost before = rels@;
            match layer_of_entry(names[idx].as_str()) {
                Some((t, _start, _end)) => {
                    if (spcnode == 0 || t.spcnode == spcnode) && (dbnode == 0 || t.dbnode
                        == dbnode) {
                        if !has_tag(&rels, t) {
                            rels.push(t);
                            proof {
                                lemma_push_new(before, t);
                            }
                        }
                        proof {
                            assert forall|tag: RelTag| #[trigger]
                                rels@.contains(tag) <==> (before.contains(tag) || tag == t) by {
                                if rels@ != before {
                                    lemma_push_contains(before, t, tag);
                                }
                            }
                        }
                    }
                },
                None => {},
            }
            proof {
                assert forall|tag: RelTag| #[trigger]
                    rels@.contains(tag) <==> listed(
                        view.take(idx + 1),
                        spcnode,
                        dbnode,
                        tag,
                    ) by {
                    lemma_listed_more(view, idx as int, spcnode, dbnode, tag);
                }
            }
            idx = idx + 1;
        }
        assert(view.take(names.len() as int) =~= view);
        rels
    }

    /// Where the page of block `blknum` as of `lsn` comes from. An error
    /// where a version that is needed holds neither an image nor a record.
    pub fn reconstruct(&self, blknum: u32, lsn: Lsn) -> (r: Result<Reconstruction, LayerError>)
        ensures
            match page_source(self.page_versions(), blknum, lsn@) {
                Some(source) => r matches Ok(found) && found@ == source,
                None => r matches Err(LayerError::NoImageOrRecord { tag, blknum: b, lsn: l })
                    && tag == self.rel_tag() && b == blknum && l == lsn,
            },
    {
        match self.page_versions.page_source_at(blknum, lsn) {
            Some(source) => Ok(source),
            None => Err(LayerError::NoImageOrRecord { tag: self.tag, blknum, lsn }),
        }
    }

    /// What the layer returns for an answer of the executor: the page, or
    /// the executor's error as it is.
    pub fn finish_redo(outcome: Result<Bytes, WalRedoError>) -> (r: Result<Bytes, LayerError>)
        ensures
            r == redo_answer(outcome),
    {
        match outcome {
            Ok(img) => Ok(img),
            Err(e) => Err(LayerError::WalRedo(e)),
        }
    }

    /// The page that comes from `source`: the stored image, a page of zeros,
    /// or what the executor makes of the base image and the records.
    pub fn materialize<M: WalRedoManager>(
        &self,
        walredo_mgr: &M,
        blknum: u32,
        lsn: Lsn,
        source: Reconstruction,
    ) -> (r: Result<Bytes, LayerError>)
        ensures
            source_answer(walredo_mgr, self.rel_tag(), blknum, lsn, source@, r),
    {
        let ghost from = source@;
        let r = match source {
            Reconstruction::Image(img) => Ok(img),
            Reconstruction::NeverWritten => Ok(zero_page()),
            Reconstruction::MissingBase { records: _ } => Ok(zero_page()),
            Reconstruction::Redo { base_img, records } => {
                let outcome = walredo_mgr.request_redo(self.tag, blknum, lsn, base_img, records);
                let ghost answered = outcome;
                let r = Self::finish_redo(outcome);
                proof {
                    assert(walredo_mgr.redo_result(
                        self.rel_tag(),
                        blknum,
                        lsn,
                        from->Redo_base_img,
                        from->Redo_records,
                        answered,
                    ));
                    assert(r == redo_answer(answered));
                }
                r
            },
        };
        proof {
            match from {
                PageSourceView::Image(_) => {
                    assert(source_answer(walredo_mgr, self.rel_tag(), blknum, lsn, from, r));
                },
                PageSourceView::NeverWritten => {
                    assert(source_answer(walredo_mgr, self.rel_tag(), blknum, lsn, from, r));
                },
                PageSourceView::MissingBase { .. } => {
                    assert(source_answer(walredo_mgr, self.rel_tag(), blknum, lsn, from, r));
                },
                PageSourceView::Redo { .. } => {
                    assert(source_answer(walredo_mgr, self.rel_tag(), blknum, lsn, from, r));
                },
            }
        }
        r
    }

    /// A layer that was stored and is loaded again holds the histories that
    /// it held, under the identity that it had: its name decodes to its tag
    /// and range, and its two files decode to its two histories.
    pub proof fn lemma_create_load_roundtrip(self, files: LayerFiles)
        requires
            self.saved_as(files),
        ensures
            spec_layer_of_entry(files.file_name@) == Some(
                (self.rel_tag(), self.first_lsn(), self.last_lsn()),
            ),
            spec_load_histories(files.page_versions@, files.relsizes@) == Some(
                (self.page_versions(), self.rel_sizes()),
            ),
    {
        lemma_file_name_roundtrip(self.tag, self.start_lsn, self.end_lsn);
        lemma_version_history_roundtrip(self.version_entries());
        lemma_size_history_roundtrip(self.size_entries());
        self.page_versions.lemma_view();
        self.relsizes.lemma_view();
    }
}

impl Layer for SnapshotLayer {
    open spec fn frozen(&self) -> bool {
        true
    }

    closed spec fn timeline(&self) -> ZTimelineId {
        self.timelineid
    }

    closed spec fn rel_tag(&self) -> RelTag {
        self.tag
    }

    closed spec fn first_lsn(&self) -> Lsn {
        self.start_lsn
    }

    closed spec fn last_lsn(&self) -> Lsn {
        self.end_lsn
    }

    closed spec fn page_versions(&self) -> Map<(u32, u64), PageVersionView> {
        self.page_versions@
    }

    closed spec fn rel_sizes(&self) -> Map<u64, u32> {
        self.relsizes@
    }

    fn is_frozen(&self) -> (b: bool) {
        true
    }

    fn get_timeline_id(&self) -> (id: ZTimelineId) {
        self.timelineid
    }

    fn get_tag(&self) -> (tag: RelTag) {
        self.tag
    }

    fn get_start_lsn(&self) -> (lsn: Lsn) {
        self.start_lsn
    }

    fn get_end_lsn(&self) -> (lsn: Lsn) {
        self.end_lsn
    }

    fn get_page_at_lsn<M: WalRedoManager>(&self, walredo_mgr: &M, blknum: u32, lsn: Lsn) -> (r:
        Result<Bytes, LayerError>) {
        match self.reconstruct(blknum, lsn) {
            Ok(source) => self.materialize(walredo_mgr, blknum, lsn, source),
            Err(e) => Err(e),
        }
    }

    fn get_rel_size(&self, lsn: Lsn) -> (r: Result<u32, LayerError>) {
        match self.relsizes.size_at(lsn) {
            Some(n) => Ok(n),
            None => Err(LayerError::NoRelSize { tag: self.tag, lsn }),
        }
    }

    fn get_rel_exists(&self, lsn: Lsn) -> (r: Result<bool, LayerError>) {
        Ok(self.relsizes.size_at(lsn).is_some())
    }

    /// A snapshot layer is frozen: nothing can meet what this asks of its
    /// caller.
    fn put_page_version(&self, blknum: u32, lsn: Lsn, pv: PageVersion) -> (r: Result<
        (),
        LayerError,
    >) {
        vstd::pervasive::unreached()
    }

    fn put_truncation(&self, lsn: Lsn, relsize: u32) -> (r: Result<(), LayerError>)
        ensures
            r == Err::<(), LayerError>(LayerError::CannotModify),
    {
        Err(LayerError::CannotModify)
    }

    fn freeze(&self, end_lsn: Lsn) -> (r: Result<(), LayerError>)
        ensures
            r == Err::<(), LayerError>(LayerError::CannotFreeze),
    {
        Err(LayerError::CannotFreeze)
    }
}

} // verus!
