use bytes::Bytes;
use pageserver::layer_name::{file_name_for, fname_to_tag, layer_of_entry, relsizes_file_name};
use pageserver::lsn::Lsn;
use pageserver::page_version::{PageVersion, VersionHistory};
use pageserver::reconstruct::{Reconstruction, PAGE_SIZE};
use pageserver::rel_size::SizeHistory;
use pageserver::repository::{RelTag, WALRecord, ZTimelineId};
use pageserver::snapshot_layer::SnapshotLayer;
use pageserver::storage_layer::{Layer, LayerError};
use pageserver::walredo::{WalRedoError, WalRedoManager};
use std::cell::RefCell;

const TAG: RelTag = RelTag { spcnode: 1663, dbnode: 13990, relnode: 2609, forknum: 0 };

fn timeline() -> ZTimelineId {
    ZTimelineId([7u8; 16])
}

fn image(bytes: &[u8]) -> PageVersion {
    PageVersion { page_image: Some(Bytes::copy_from_slice(bytes)), record: None }
}

fn record(bytes: &[u8], will_init: bool) -> PageVersion {
    PageVersion {
        page_image: None,
        record: Some(WALRecord { will_init, rec: Bytes::copy_from_slice(bytes) }),
    }
}

/// What one request to the executor held.
#[derive(Debug, PartialEq)]
struct Request {
    tag: RelTag,
    blknum: u32,
    lsn: u64,
    base_img: Option<Vec<u8>>,
    records: Vec<(bool, Vec<u8>)>,
}

/// An executor that writes each request down and answers with the base
/// image followed by the payloads of the records, or fails.
struct Recorder {
    requests: RefCell<Vec<Request>>,
    fail: bool,
}

impl Recorder {
    fn new() -> Recorder {
        Recorder { requests: RefCell::new(Vec::new()), fail: false }
    }

    fn failing() -> Recorder {
        Recorder { requests: RefCell::new(Vec::new()), fail: true }
    }
}

impl WalRedoManager for Recorder {
    fn request_redo(
        &self,
        tag: RelTag,
        blknum: u32,
        lsn: Lsn,
        base_img: Option<Bytes>,
        records: Vec<WALRecord>,
    ) -> Result<Bytes, WalRedoError> {
        let mut page: Vec<u8> = Vec::new();
        if let Some(img) = &base_img {
            page.extend_from_slice(&img[..]);
        }
        for rec in records.iter() {
            page.extend_from_slice(&rec.rec[..]);
        }
        self.requests.borrow_mut().push(Request {
            tag,
            blknum,
            lsn: lsn.0,
            base_img: base_img.map(|b| b.to_vec()),
            records: records.iter().map(|r| (r.will_init, r.rec.to_vec())).collect(),
        });
        if self.fail {
            Err(WalRedoError { message: String::from("redo failed") })
        } else {
            Ok(Bytes::from(page))
        }
    }
}

fn layer_of(versions: VersionHistory, sizes: SizeHistory) -> SnapshotLayer {
    SnapshotLayer::create(timeline(), TAG, Lsn(5), Lsn(100), versions, sizes).0
}

fn three_versions() -> VersionHistory {
    let mut h = VersionHistory::new();
    h.insert(7, Lsn(30), record(b"R2", false));
    h.insert(7, Lsn(10), image(b"A"));
    h.insert(7, Lsn(20), record(b"R1", false));
    h.insert(6, Lsn(25), image(b"other block"));
    h.insert(8, Lsn(1), image(b"next block"));
    h
}

#[test]
fn backward_scan_at_25_replays_r1_on_a() {
    let layer = layer_of(three_versions(), SizeHistory::new());
    let mgr = Recorder::new();
    let page = layer.get_page_at_lsn(&mgr, 7, Lsn(25)).unwrap();
    assert_eq!(&page[..], b"AR1");
    let requests = mgr.requests.borrow();
    assert_eq!(requests.len(), 1);
    assert_eq!(
        requests[0],
        Request {
            tag: TAG,
            blknum: 7,
            lsn: 25,
            base_img: Some(b"A".to_vec()),
            records: vec![(false, b"R1".to_vec())],
        }
    );
}

#[test]
fn backward_scan_at_35_replays_r1_then_r2_on_a() {
    let layer = layer_of(three_versions(), SizeHistory::new());
    let mgr = Recorder::new();
    let page = layer.get_page_at_lsn(&mgr, 7, Lsn(35)).unwrap();
    assert_eq!(&page[..], b"AR1R2");
    let requests = mgr.requests.borrow();
    assert_eq!(requests.len(), 1);
    assert_eq!(requests[0].base_img, Some(b"A".to_vec()));
    assert_eq!(requests[0].records, vec![(false, b"R1".to_vec()), (false, b"R2".to_vec())]);
    assert_eq!(requests[0].lsn, 35);
}

#[test]
fn scan_at_the_lsn_of_a_version_includes_it() {
    let layer = layer_of(three_versions(), SizeHistory::new());
    let mgr = Recorder::new();
    let page = layer.get_page_at_lsn(&mgr, 7, Lsn(20)).unwrap();
    assert_eq!(&page[..], b"AR1");
    let page = layer.get_page_at_lsn(&mgr, 7, Lsn(19)).unwrap();
    assert_eq!(&page[..], b"A");
    assert_eq!(mgr.requests.borrow().len(), 1);
}

#[test]
fn image_without_records_needs_no_executor() {
    let layer = layer_of(three_versions(), SizeHistory::new());
    let mgr = Recorder::failing();
    let page = layer.get_page_at_lsn(&mgr, 7, Lsn(10)).unwrap();
    assert_eq!(&page[..], b"A");
    let page = layer.get_page_at_lsn(&mgr, 6, Lsn(u64::MAX)).unwrap();
    assert_eq!(&page[..], b"other block");
    assert!(mgr.requests.borrow().is_empty());
}

#[test]
fn newer_image_hides_what_is_older() {
    let mut h = three_versions();
    h.insert(7, Lsn(40), image(b"B"));
    h.insert(7, Lsn(50), record(b"R3", false));
    let layer = layer_of(h, SizeHistory::new());
    let mgr = Recorder::new();
    let page = layer.get_page_at_lsn(&mgr, 7, Lsn(60)).unwrap();
    assert_eq!(&page[..], b"BR3");
    assert_eq!(mgr.requests.borrow()[0].records, vec![(false, b"R3".to_vec())]);
}

#[test]
fn self_initializing_record_needs_no_base() {
    let mut h = VersionHistory::new();
    h.insert(3, Lsn(20), record(b"R1", true));
    let layer = layer_of(h, SizeHistory::new());
    let mgr = Recorder::new();
    let page = layer.get_page_at_lsn(&mgr, 3, Lsn(25)).unwrap();
    assert_eq!(&page[..], b"R1");
    let requests = mgr.requests.borrow();
    assert_eq!(requests.len(), 1);
    assert_eq!(requests[0].base_img, None);
    assert_eq!(requests[0].records, vec![(true, b"R1".to_vec())]);
}

#[test]
fn self_initializing_record_hides_older_versions() {
    let mut h = VersionHistory::new();
    h.insert(3, Lsn(5), image(b"old"));
    h.insert(3, Lsn(10), record(b"R0", false));
    h.insert(3, Lsn(20), record(b"init", true));
    h.insert(3, Lsn(30), record(b"R2", false));
    let layer = layer_of(h, SizeHistory::new());
    let mgr = Recorder::new();
    let page = layer.get_page_at_lsn(&mgr, 3, Lsn(30)).unwrap();
    assert_eq!(&page[..], b"initR2");
    assert_eq!(mgr.requests.borrow()[0].base_img, None);
}

#[test]
fn never_written_page_is_all_zeros() {
    let layer = layer_of(three_versions(), SizeHistory::new());
    let mgr = Recorder::failing();
    let page = layer.get_page_at_lsn(&mgr, 9, Lsn(1000)).unwrap();
    assert_eq!(page.len(), 8192);
    assert_eq!(PAGE_SIZE, 8192);
    assert!(page.iter().all(|b| *b == 0));
    // Block 7 has versions, but none at or before LSN 9.
    let page = layer.get_page_at_lsn(&mgr, 7, Lsn(9)).unwrap();
    assert_eq!(page.len(), 8192);
    assert!(page.iter().all(|b| *b == 0));
    assert!(mgr.requests.borrow().is_empty());
    assert!(matches!(layer.reconstruct(9, Lsn(1000)), Ok(Reconstruction::NeverWritten)));
}

#[test]
fn records_without_base_give_zero_page_and_say_so() {
    let mut h = VersionHistory::new();
    h.insert(4, Lsn(20), record(b"R1", false));
    h.insert(4, Lsn(30), record(b"R2", false));
    let layer = layer_of(h, SizeHistory::new());
    let mgr = Recorder::failing();
    let page = layer.get_page_at_lsn(&mgr, 4, Lsn(35)).unwrap();
    assert_eq!(page.len(), 8192);
    assert!(page.iter().all(|b| *b == 0));
    assert!(mgr.requests.borrow().is_empty());
    match layer.reconstruct(4, Lsn(35)) {
        Ok(Reconstruction::MissingBase { records }) => {
            assert_eq!(records.len(), 2);
            assert_eq!(&records[0].rec[..], b"R1");
            assert_eq!(&records[1].rec[..], b"R2");
        }
        other => panic!("unexpected {:?}", other),
    }
}

#[test]
fn version_with_neither_image_nor_record_is_an_error() {
    let mut h = VersionHistory::new();
    h.insert(4, Lsn(10), image(b"A"));
    h.insert(4, Lsn(20), PageVersion { page_image: None, record: None });
    h.insert(4, Lsn(30), record(b"R2", false));
    let layer = layer_of(h, SizeHistory::new());
    let mgr = Recorder::new();
    match layer.get_page_at_lsn(&mgr, 4, Lsn(35)) {
        Err(LayerError::NoImageOrRecord { tag, blknum, lsn }) => {
            assert_eq!(tag, TAG);
            assert_eq!(blknum, 4);
            assert_eq!(lsn, Lsn(35));
        }
        other => panic!("unexpected {:?}", other),
    }
    // Below the corrupt version all is well.
    assert_eq!(&layer.get_page_at_lsn(&mgr, 4, Lsn(15)).unwrap()[..], b"A");
    assert!(mgr.requests.borrow().is_empty());
}

#[test]
fn image_wins_over_record_in_one_version() {
    let mut h = VersionHistory::new();
    h.insert(
        4,
        Lsn(10),
        PageVersion {
            page_image: Some(Bytes::from_static(b"img")),
            record: Some(WALRecord { will_init: false, rec: Bytes::from_static(b"rec") }),
        },
    );
    let layer = layer_of(h, SizeHistory::new());
    let mgr = Recorder::failing();
    assert_eq!(&layer.get_page_at_lsn(&mgr, 4, Lsn(10)).unwrap()[..], b"img");
}

#[test]
fn executor_error_is_returned_as_it_is() {
    let layer = layer_of(three_versions(), SizeHistory::new());
    let mgr = Recorder::failing();
    match layer.get_page_at_lsn(&mgr, 7, Lsn(25)) {
        Err(LayerError::WalRedo(e)) => assert_eq!(e.message, "redo failed"),
        other => panic!("unexpected {:?}", other),
    }
    assert_eq!(mgr.requests.borrow().len(), 1);
}

#[test]
fn finish_redo_maps_both_outcomes() {
    let ok = SnapshotLayer::finish_redo(Ok(Bytes::from_static(b"page")));
    assert_eq!(&ok.unwrap()[..], b"page");
    let err = SnapshotLayer::finish_redo(Err(WalRedoError { message: String::from("boom") }));
    assert!(matches!(err, Err(LayerError::WalRedo(e)) if e.message == "boom"));
}

#[test]
fn inserting_twice_keeps_the_last_version() {
    let mut h = VersionHistory::new();
    h.insert(1, Lsn(10), image(b"first"));
    h.insert(1, Lsn(10), image(b"second"));
    assert_eq!(h.len(), 1);
    let v = h.get(1, Lsn(10)).unwrap();
    assert_eq!(&v.page_image.as_ref().unwrap()[..], b"second");
    assert!(h.get(1, Lsn(11)).is_none());
    assert!(h.get(0, Lsn(10)).is_none());
}

#[test]
fn entries_are_ordered_by_block_then_lsn() {
    let h = three_versions();
    let keys: Vec<(u32, u64)> =
        (0..h.len()).map(|i| (h.entry_at(i).blknum, h.entry_at(i).lsn.0)).collect();
    assert_eq!(keys, vec![(6, 25), (7, 10), (7, 20), (7, 30), (8, 1)]);
    assert_eq!(h.upper_bound(7, Lsn(20)), 3);
    assert_eq!(h.upper_bound(7, Lsn(9)), 1);
    assert_eq!(h.upper_bound(0, Lsn(0)), 0);
    assert_eq!(h.upper_bound(9, Lsn(0)), 5);
}

fn two_sizes() -> SizeHistory {
    let mut s = SizeHistory::new();
    s.insert(Lsn(15), 3);
    s.insert(Lsn(5), 0);
    s
}

#[test]
fn size_lookup_takes_the_latest_entry_at_or_before() {
    let layer = layer_of(VersionHistory::new(), two_sizes());
    assert_eq!(layer.get_rel_exists(Lsn(3)).unwrap(), false);
    assert_eq!(layer.get_rel_exists(Lsn(5)).unwrap(), true);
    assert_eq!(layer.get_rel_size(Lsn(20)).unwrap(), 3);
    assert_eq!(layer.get_rel_size(Lsn(15)).unwrap(), 3);
    assert_eq!(layer.get_rel_size(Lsn(14)).unwrap(), 0);
    assert_eq!(layer.get_rel_size(Lsn(5)).unwrap(), 0);
    assert_eq!(layer.get_rel_size(Lsn(u64::MAX)).unwrap(), 3);
}

#[test]
fn size_before_the_first_entry_is_an_error() {
    let layer = layer_of(VersionHistory::new(), two_sizes());
    match layer.get_rel_size(Lsn(4)) {
        Err(LayerError::NoRelSize { tag, lsn }) => {
            assert_eq!(tag, TAG);
            assert_eq!(lsn, Lsn(4));
        }
        other => panic!("unexpected {:?}", other),
    }
    let empty = layer_of(VersionHistory::new(), SizeHistory::new());
    assert!(matches!(empty.get_rel_size(Lsn(0)), Err(LayerError::NoRelSize { .. })));
    assert_eq!(empty.get_rel_exists(Lsn(u64::MAX)).unwrap(), false);
}

#[test]
fn size_entered_twice_keeps_the_last() {
    let mut s = two_sizes();
    s.insert(Lsn(15), 9);
    assert_eq!(s.len(), 2);
    assert_eq!(s.size_at(Lsn(15)), Some(9));
    assert_eq!(s.size_at(Lsn(0)), None);
    assert_eq!(s.entry_at(0), (Lsn(5), 0));
    assert_eq!(s.upper_bound(Lsn(10)), 1);
}

#[test]
fn frozen_layer_refuses_changes_and_reads_stay() {
    let layer = layer_of(three_versions(), two_sizes());
    assert!(layer.is_frozen());
    assert!(matches!(layer.put_truncation(Lsn(50), 1), Err(LayerError::CannotModify)));
    assert!(matches!(layer.freeze(Lsn(200)), Err(LayerError::CannotFreeze)));
    assert_eq!(layer.get_rel_size(Lsn(50)).unwrap(), 3);
    assert_eq!(layer.get_end_lsn(), Lsn(100));
    let mgr = Recorder::new();
    assert_eq!(&layer.get_page_at_lsn(&mgr, 7, Lsn(25)).unwrap()[..], b"AR1");
}

#[test]
fn accessors_give_the_identity() {
    let layer = layer_of(VersionHistory::new(), SizeHistory::new());
    assert_eq!(layer.get_timeline_id(), timeline());
    assert_eq!(layer.get_tag(), TAG);
    assert_eq!(layer.get_start_lsn(), Lsn(5));
    assert_eq!(layer.get_end_lsn(), Lsn(100));
    assert_eq!(layer.tag, TAG);
    assert_eq!(layer.start_lsn, Lsn(5));
}

#[test]
fn file_name_has_six_fields() {
    let name = file_name_for(TAG, Lsn(0x169C348), Lsn(0x169C349));
    assert_eq!(name, "1663_13990_2609_0_000000000169C348_000000000169C349");
    assert_eq!(
        relsizes_file_name(&name),
        "1663_13990_2609_0_000000000169C348_000000000169C349_relsizes"
    );
    let big = RelTag { spcnode: u32::MAX, dbnode: 0, relnode: 10, forknum: 255 };
    assert_eq!(
        file_name_for(big, Lsn(0), Lsn(u64::MAX)),
        "4294967295_0_10_255_0000000000000000_FFFFFFFFFFFFFFFF"
    );
}

#[test]
fn name_codec_round_trip() {
    let tags = [
        TAG,
        RelTag { spcnode: 0, dbnode: 0, relnode: 0, forknum: 0 },
        RelTag { spcnode: u32::MAX, dbnode: u32::MAX, relnode: u32::MAX, forknum: u8::MAX },
        RelTag { spcnode: 10, dbnode: 100, relnode: 1000, forknum: 3 },
    ];
    let lsns = [0u64, 1, 9, 10, 15, 16, 255, 0x169C348, u64::MAX - 1, u64::MAX];
    for tag in tags.iter() {
        for start in lsns.iter() {
            for end in lsns.iter() {
                let name = file_name_for(*tag, Lsn(*start), Lsn(*end));
                assert_eq!(fname_to_tag(&name), Some((*tag, Lsn(*start), Lsn(*end))));
                assert_eq!(layer_of_entry(&name), Some((*tag, Lsn(*start), Lsn(*end))));
            }
        }
    }
}

#[test]
fn unrelated_names_are_not_layers() {
    for name in [
        "",
        "_",
        "wal",
        "ancestor",
        "1663_13990_2609_0_000000000169C348",
        "1663_13990_2609_0_000000000169C348_",
        "1663_13990_2609_256_000000000169C348_000000000169C349",
        "4294967296_13990_2609_0_000000000169C348_000000000169C349",
        "1663_13990_2609_0_000000000169C34G_000000000169C349",
        "1663_13990_2609_0_10000000000000000_000000000169C349",
        "1663_-1_2609_0_000000000169C348_000000000169C349",
        "1663_13990_2609_0x0_000000000169C348_000000000169C349",
        "1663__2609_0_000000000169C348_000000000169C349",
        " 1663_13990_2609_0_000000000169C348_000000000169C349",
        "1663_13990_2609_0_+_000000000169C349",
        "\u{fc}_1_2_3_4_5",
    ] {
        assert_eq!(fname_to_tag(name), None, "{:?}", name);
    }
}

#[test]
fn decoding_takes_what_the_number_parsers_take() {
    let expect = Some((RelTag { spcnode: 1, dbnode: 2, relnode: 3, forknum: 4 }, Lsn(0xab), Lsn(0xcd)));
    assert_eq!(fname_to_tag("1_2_3_4_AB_CD"), expect);
    assert_eq!(fname_to_tag("1_2_3_4_ab_cd"), expect);
    assert_eq!(fname_to_tag("+1_002_3_4_+AB_00000000000000000000CD"), expect);
    assert_eq!(fname_to_tag("1_2_3_4_AB_CD_more_\u{fc}"), expect);
    assert_eq!(fname_to_tag("1_2_3_4_AB_CD_relsizes"), expect);
    assert_eq!(layer_of_entry("1_2_3_4_AB_CD_relsizes"), None);
    assert_eq!(layer_of_entry("1_2_3_4_AB_CD_more"), expect);
}

fn names(list: &[&str]) -> Vec<String> {
    list.iter().map(|s| s.to_string()).collect()
}

#[test]
fn directory_scan_selects_largest_start_at_or_before() {
    let dir = names(&[
        &file_name_for(TAG, Lsn(200), Lsn(300)),
        &file_name_for(TAG, Lsn(0), Lsn(100)),
        "unrelated.tmp",
        &relsizes_file_name(&file_name_for(TAG, Lsn(100), Lsn(200))),
        &file_name_for(TAG, Lsn(100), Lsn(200)),
    ]);
    assert_eq!(
        SnapshotLayer::find_latest_snapshot_file(&dir, TAG, Lsn(150)),
        Some((Lsn(100), Lsn(200)))
    );
    assert_eq!(
        SnapshotLayer::find_latest_snapshot_file(&dir, TAG, Lsn(100)),
        Some((Lsn(100), Lsn(200)))
    );
    assert_eq!(
        SnapshotLayer::find_latest_snapshot_file(&dir, TAG, Lsn(99)),
        Some((Lsn(0), Lsn(100)))
    );
    assert_eq!(
        SnapshotLayer::find_latest_snapshot_file(&dir, TAG, Lsn(u64::MAX)),
        Some((Lsn(200), Lsn(300)))
    );
}

#[test]
fn directory_scan_passes_over_other_relations_and_companions() {
    let other = RelTag { relnode: 2610, ..TAG };
    let dir = names(&[
        &file_name_for(other, Lsn(120), Lsn(130)),
        &relsizes_file_name(&file_name_for(TAG, Lsn(140), Lsn(150))),
        &file_name_for(TAG, Lsn(50), Lsn(60)),
    ]);
    assert_eq!(
        SnapshotLayer::find_latest_snapshot_file(&dir, TAG, Lsn(150)),
        Some((Lsn(50), Lsn(60)))
    );
    assert_eq!(SnapshotLayer::find_latest_snapshot_file(&dir, TAG, Lsn(49)), None);
    assert_eq!(SnapshotLayer::find_latest_snapshot_file(&names(&[]), TAG, Lsn(49)), None);
}

#[test]
fn directory_scan_keeps_the_first_of_equal_starts() {
    let dir = names(&[
        &file_name_for(TAG, Lsn(10), Lsn(20)),
        &file_name_for(TAG, Lsn(10), Lsn(30)),
    ]);
    assert_eq!(
        SnapshotLayer::find_latest_snapshot_file(&dir, TAG, Lsn(15)),
        Some((Lsn(10), Lsn(20)))
    );
}

#[test]
fn list_rels_filters_and_lists_each_once() {
    let a = RelTag { spcnode: 1, dbnode: 10, relnode: 100, forknum: 0 };
    let b = RelTag { spcnode: 1, dbnode: 11, relnode: 101, forknum: 0 };
    let c = RelTag { spcnode: 2, dbnode: 10, relnode: 102, forknum: 1 };
    let dir = names(&[
        &file_name_for(a, Lsn(1), Lsn(2)),
        &relsizes_file_name(&file_name_for(a, Lsn(1), Lsn(2))),
        &file_name_for(b, Lsn(1), Lsn(2)),
        "garbage",
        &file_name_for(a, Lsn(2), Lsn(3)),
        &file_name_for(c, Lsn(1), Lsn(2)),
    ]);
    assert_eq!(SnapshotLayer::list_rels(&dir, 0, 0), vec![a, b, c]);
    assert_eq!(SnapshotLayer::list_rels(&dir, 1, 0), vec![a, b]);
    assert_eq!(SnapshotLayer::list_rels(&dir, 0, 10), vec![a, c]);
    assert_eq!(SnapshotLayer::list_rels(&dir, 2, 10), vec![c]);
    assert_eq!(SnapshotLayer::list_rels(&dir, 2, 11), Vec::<RelTag>::new());
}

fn rich_history() -> VersionHistory {
    let mut h = three_versions();
    h.insert(1, Lsn(u64::MAX), record(b"", true));
    h.insert(u32::MAX, Lsn(0), PageVersion { page_image: None, record: None });
    h.insert(
        2,
        Lsn(3),
        PageVersion {
            page_image: Some(Bytes::from(vec![0xEEu8; 300])),
            record: Some(WALRecord { will_init: false, rec: Bytes::from_static(b"both") }),
        },
    );
    h
}

fn flatten(h: &VersionHistory) -> Vec<(u32, u64, Option<Vec<u8>>, Option<(bool, Vec<u8>)>)> {
    (0..h.len())
        .map(|i| {
            let e = h.entry_at(i);
            (
                e.blknum,
                e.lsn.0,
                e.version.page_image.as_ref().map(|b| b.to_vec()),
                e.version.record.as_ref().map(|r| (r.will_init, r.rec.to_vec())),
            )
        })
        .collect()
}

#[test]
fn create_then_load_round_trip() {
    let (layer, files) =
        SnapshotLayer::create(timeline(), TAG, Lsn(5), Lsn(100), rich_history(), two_sizes());
    let dir = vec![files.relsizes_file_name.clone(), files.file_name.clone()];
    let req = SnapshotLayer::load(&dir, TAG, Lsn(50)).unwrap();
    assert_eq!(req.file_name, files.file_name);
    assert_eq!(req.relsizes_file_name, files.relsizes_file_name);
    assert_eq!((req.start_lsn, req.end_lsn), (Lsn(5), Lsn(100)));
    let loaded = SnapshotLayer::load_path(
        timeline(),
        TAG,
        req.start_lsn,
        req.end_lsn,
        &files.page_versions,
        &files.relsizes,
    )
    .unwrap();
    assert_eq!(flatten(loaded.versions()), flatten(layer.versions()));
    assert_eq!(flatten(loaded.versions()), flatten(&rich_history()));
    assert_eq!(loaded.sizes().len(), 2);
    assert_eq!(loaded.sizes().entry_at(0), (Lsn(5), 0));
    assert_eq!(loaded.sizes().entry_at(1), (Lsn(15), 3));
    assert_eq!(loaded.get_tag(), TAG);
    assert_eq!(loaded.get_start_lsn(), Lsn(5));
    assert_eq!(loaded.get_end_lsn(), Lsn(100));
    // Saving what was loaded gives the same files.
    let again = loaded.save();
    assert_eq!(again.page_versions, files.page_versions);
    assert_eq!(again.relsizes, files.relsizes);
    assert_eq!(again.file_name, files.file_name);
}

#[test]
fn load_finds_nothing_before_the_first_layer() {
    let (_layer, files) =
        SnapshotLayer::create(timeline(), TAG, Lsn(5), Lsn(100), rich_history(), two_sizes());
    let dir = vec![files.file_name.clone(), files.relsizes_file_name.clone()];
    assert!(SnapshotLayer::load(&dir, TAG, Lsn(4)).is_none());
    assert!(SnapshotLayer::load(&dir, RelTag { forknum: 1, ..TAG }, Lsn(50)).is_none());
}

#[test]
fn saved_files_have_the_stated_layout() {
    let mut h = VersionHistory::new();
    h.insert(0x01020304, Lsn(0x1112131415161718), image(b"im"));
    h.insert(5, Lsn(6), record(b"r", true));
    let mut s = SizeHistory::new();
    s.insert(Lsn(0x0102), 0x0A0B0C0D);
    let (_layer, files) = SnapshotLayer::create(timeline(), TAG, Lsn(1), Lsn(2), h, s);
    let mut expect: Vec<u8> = vec![0, 0, 0, 0, 0, 0, 0, 2];
    // block 5, LSN 6: no image, a record that initialises the page
    expect.extend_from_slice(&[0, 0, 0, 5, 0, 0, 0, 0, 0, 0, 0, 6]);
    expect.extend_from_slice(&[0, 1, 1, 0, 0, 0, 0, 0, 0, 0, 1, b'r']);
    // block 0x01020304: an image, no record
    expect.extend_from_slice(&[1, 2, 3, 4, 0x11, 0x12, 0x13, 0x14, 0x15, 0x16, 0x17, 0x18]);
    expect.extend_from_slice(&[1, 0, 0, 0, 0, 0, 0, 0, 2, b'i', b'm', 0]);
    assert_eq!(files.page_versions, expect);
    assert_eq!(
        files.relsizes,
        vec![0, 0, 0, 0, 0, 0, 0, 1, 0, 0, 0, 0, 0, 0, 1, 2, 0x0A, 0x0B, 0x0C, 0x0D]
    );
    assert_eq!(files.file_name, "1663_13990_2609_0_0000000000000001_0000000000000002");
}

#[test]
fn malformed_files_are_load_errors() {
    let (_layer, files) =
        SnapshotLayer::create(timeline(), TAG, Lsn(5), Lsn(100), rich_history(), two_sizes());
    let load = |pv: &[u8], rs: &[u8]| SnapshotLayer::load_path(timeline(), TAG, Lsn(5), Lsn(100), pv, rs);
    // Cut short anywhere, the file of versions is refused.
    for cut in 0..files.page_versions.len() {
        assert!(matches!(
            load(&files.page_versions[..cut], &files.relsizes),
            Err(LayerError::MalformedPageVersions)
        ));
    }
    for cut in 0..files.relsizes.len() {
        assert!(matches!(
            load(&files.page_versions, &files.relsizes[..cut]),
            Err(LayerError::MalformedRelSizes)
        ));
    }
    // Bytes behind the last entry.
    let mut longer = files.page_versions.clone();
    longer.push(0);
    assert!(matches!(load(&longer, &files.relsizes), Err(LayerError::MalformedPageVersions)));
    let mut longer = files.relsizes.clone();
    longer.push(0);
    assert!(matches!(load(&files.page_versions, &longer), Err(LayerError::MalformedRelSizes)));
    // A flag that is neither 0 nor 1.
    let bad_flag = [0, 0, 0, 0, 0, 0, 0, 1, 0, 0, 0, 1, 0, 0, 0, 0, 0, 0, 0, 1, 2, 0];
    assert!(matches!(load(&bad_flag, &files.relsizes), Err(LayerError::MalformedPageVersions)));
    // A length that runs past the end.
    let bad_len = [0, 0, 0, 0, 0, 0, 0, 1, 0, 0, 0, 1, 0, 0, 0, 0, 0, 0, 0, 1, 1, 0xff, 0xff, 0xff, 0xff, 0xff, 0xff, 0xff, 0xff, 0];
    assert!(matches!(load(&bad_len, &files.relsizes), Err(LayerError::MalformedPageVersions)));
    // Both malformed: the file of versions is named.
    assert!(matches!(load(&[], &[]), Err(LayerError::MalformedPageVersions)));
    assert!(load(&files.page_versions, &files.relsizes).is_ok());
}

#[test]
fn unordered_file_is_loaded_with_the_last_entry_winning() {
    // Two entries for one LSN, out of order with a third.
    let rs = [
        0, 0, 0, 0, 0, 0, 0, 3, //
        0, 0, 0, 0, 0, 0, 0, 9, 0, 0, 0, 1, //
        0, 0, 0, 0, 0, 0, 0, 4, 0, 0, 0, 2, //
        0, 0, 0, 0, 0, 0, 0, 9, 0, 0, 0, 3,
    ];
    let empty = [0u8; 8];
    let layer = SnapshotLayer::load_path(timeline(), TAG, Lsn(0), Lsn(10), &empty, &rs).unwrap();
    assert_eq!(layer.sizes().len(), 2);
    assert_eq!(layer.get_rel_size(Lsn(9)).unwrap(), 3);
    assert_eq!(layer.get_rel_size(Lsn(8)).unwrap(), 2);
    assert_eq!(layer.versions().len(), 0);
}
