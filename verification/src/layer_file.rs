//! What a layer's two files hold: the version history in one, the size
//! history in the other.
//!
//! Each file holds the number of entries as a 64-bit number and then the
//! entries in the order of their keys. An entry of the version history is
//! the block number (32 bits), the LSN (64 bits), then the image and the
//! record, each behind a flag that says whether it is there. An entry of the
//! size history is the LSN and the size (32 bits). Nothing may follow the
//! last entry.

use crate::bin_ser::{
    dec_bool, dec_bytes, dec_u32, dec_u64, enc_bool, enc_bytes, enc_u32, enc_u64, get_bool,
    get_bytes, get_u32, get_u64, lemma_bool_roundtrip, lemma_bytes_roundtrip, lemma_u32_roundtrip,
    lemma_u64_roundtrip, put_bool, put_bytes, put_u32, put_u64,
};
use crate::lsn::Lsn;
use crate::page_version::{
    entries_map, PageVersion, PageVersionView, VersionEntryView, VersionHistory,
};
use crate::reconstruct::image_view;
use crate::rel_size::{sizes_map, SizeHistory};
use crate::repository::{WALRecord, WalRecordView};
use bytes::Bytes;
use vstd::prelude::*;

verus! {

/// An optional image, encoded.
pub open spec fn enc_opt_image(img: Option<Seq<u8>>) -> Seq<u8> {
    match img {
        Some(b) => enc_bool(true) + enc_bytes(b),
        None => enc_bool(false),
    }
}

/// A WAL record, encoded.
pub open spec fn enc_record(rec: WalRecordView) -> Seq<u8> {
    enc_bool(rec.will_init) + enc_bytes(rec.rec)
}

/// An optional WAL record, encoded.
pub open spec fn enc_opt_record(rec: Option<WalRecordView>) -> Seq<u8> {
    match rec {
        Some(r) => enc_bool(true) + enc_record(r),
        None => enc_bool(false),
    }
}

/// A page version, encoded.
pub open spec fn enc_page_version(v: PageVersionView) -> Seq<u8> {
    enc_opt_image(v.page_image) + enc_opt_record(v.record)
}

/// An entry of the version history, encoded.
pub open spec fn enc_version_entry(e: VersionEntryView) -> Seq<u8> {
    enc_u32(e.blknum) + enc_u64(e.lsn) + enc_page_version(e.version)
}

/// Entries of the version history, encoded one after another.
pub open spec fn enc_version_entries(es: Seq<VersionEntryView>) -> Seq<u8>
    decreases es.len(),
{
    if es.len() == 0 {
        Seq::<u8>::empty()
    } else {
        enc_version_entry(es[0]) + enc_version_entries(es.drop_first())
    }
}

/// The file of a version history with these entries.
pub open spec fn enc_version_history(es: Seq<VersionEntryView>) -> Seq<u8> {
    enc_u64(es.len() as u64) + enc_version_entries(es)
}

/// The lengths in a page version fit in 64 bits.
pub open spec fn encodable_version(v: PageVersionView) -> bool {
    &&& v.page_image matches Some(b) ==> b.len() <= u64::MAX
    &&& v.record matches Some(r) ==> r.rec.len() <= u64::MAX
}

/// The number of entries and the lengths in them fit in 64 bits.
pub open spec fn encodable_versions(es: Seq<VersionEntryView>) -> bool {
    &&& es.len() <= u64::MAX
    &&& forall|i: int| 0 <= i < es.len() ==> encodable_version((#[trigger] es[i]).version)
}

/// Decodes an optional image from the front of `s`.
pub open spec fn dec_opt_image(s: Seq<u8>) -> Option<(Option<Seq<u8>>, Seq<u8>)> {
    match dec_bool(s) {
        Some((present, rest)) => if present {
            match dec_bytes(rest) {
                Some((b, after)) => Some((Some(b), after)),
                None => None,
            }
        } else {
            Some((None, rest))
        },
        None => None,
    }
}

/// Decodes a WAL record from the front of `s`.
pub open spec fn dec_record(s: Seq<u8>) -> Option<(WalRecordView, Seq<u8>)> {
    match dec_bool(s) {
        Some((will_init, rest)) => match dec_bytes(rest) {
            Some((rec, after)) => Some((WalRecordView { will_init, rec }, after)),
            None => None,
        },
        None => None,
    }
}

/// Decodes an optional WAL record from the front of `s`.
pub open spec fn dec_opt_record(s: Seq<u8>) -> Option<(Option<WalRecordView>, Seq<u8>)> {
    match dec_bool(s) {
        Some((present, rest)) => if present {
            match dec_record(rest) {
                Some((r, after)) => Some((Some(r), after)),
                None => None,
            }
        } else {
            Some((None, rest))
        },
        None => None,
    }
}

/// Decodes a page version from the front of `s`.
pub open spec fn dec_page_version(s: Seq<u8>) -> Option<(PageVersionView, Seq<u8>)> {
    match dec_opt_image(s) {
        Some((page_image, rest)) => match dec_opt_record(rest) {
            Some((record, after)) => Some((PageVersionView { page_image, record }, after)),
            None => None,
        },
        None => None,
    }
}

/// Decodes an entry of the version history from the front of `s`.
pub open spec fn dec_version_entry(s: Seq<u8>) -> Option<(VersionEntryView, Seq<u8>)> {
    match dec_u32(s) {
        Some((blknum, rest)) => match dec_u64(rest) {
            Some((lsn, rest2)) => match dec_page_version(rest2) {
                Some((version, after)) => Some((VersionEntryView { blknum, lsn, version }, after)),
                None => None,
            },
            None => None,
        },
        None => None,
    }
}

/// Decodes `count` entries of the version history from the front of `s`.
pub open spec fn dec_version_entries(s: Seq<u8>, count: nat) -> Option<
    (Seq<VersionEntryView>, Seq<u8>),
>
    decreases count,
{
    if count == 0 {
        Some((Seq::empty(), s))
    } else {
        match dec_version_entry(s) {
            Some((e, rest)) => match dec_version_entries(rest, (count - 1) as nat) {
                Some((es, after)) => Some((seq![e] + es, after)),
                None => None,
            },
            None => None,
        }
    }
}

/// Decodes the file of a version history: the entries in the order in which
/// the file holds them. `None` where the file is cut short, holds a flag
/// that is neither 0 nor 1, or goes on behind its last entry.
pub open spec fn dec_version_history(s: Seq<u8>) -> Option<Seq<VersionEntryView>> {
    match dec_u64(s) {
        Some((count, rest)) => match dec_version_entries(rest, count as nat) {
            Some((es, after)) => if after.len() == 0 {
                Some(es)
            } else {
                None
            },
            None => None,
        },
        None => None,
    }
}

/// An optional image is decoded from what follows by its encoding.
pub proof fn lemma_opt_image_roundtrip(img: Option<Seq<u8>>, rest: Seq<u8>)
    requires
        img matches Some(b) ==> b.len() <= u64::MAX,
    ensures
        dec_opt_image(enc_opt_image(img) + rest) == Some((img, rest)),
{
    match img {
        Some(b) => {
            assert(enc_opt_image(img) + rest =~= enc_bool(true) + (enc_bytes(b) + rest));
            lemma_bool_roundtrip(true, enc_bytes(b) + rest);
            lemma_bytes_roundtrip(b, rest);
        },
        None => {
            lemma_bool_roundtrip(false, rest);
        },
    }
}

/// A WAL record is decoded from what follows by its encoding.
pub proof fn lemma_record_roundtrip(rec: WalRecordView, rest: Seq<u8>)
    requires
        rec.rec.len() <= u64::MAX,
    ensures
        dec_record(enc_record(rec) + rest) == Some((rec, rest)),
{
    assert(enc_record(rec) + rest =~= enc_bool(rec.will_init) + (enc_bytes(rec.rec) + rest));
    lemma_bool_roundtrip(rec.will_init, enc_bytes(rec.rec) + rest);
    lemma_bytes_roundtrip(rec.rec, rest);
}

/// An optional WAL record is decoded from what follows by its encoding.
pub proof fn lemma_opt_record_roundtrip(rec: Option<WalRecordView>, rest: Seq<u8>)
    requires
        rec matches Some(r) ==> r.rec.len() <= u64::MAX,
    ensures
        dec_opt_record(enc_opt_record(rec) + rest) == Some((rec, rest)),
{
    match rec {
        Some(r) => {
            assert(enc_opt_record(rec) + rest =~= enc_bool(true) + (enc_record(r) + rest));
            lemma_bool_roundtrip(true, enc_record(r) + rest);
            lemma_record_roundtrip(r, rest);
        },
        None => {
            lemma_bool_roundtrip(false, rest);
        },
    }
}

/// A page version is decoded from what follows by its encoding.
pub proof fn lemma_page_version_roundtrip(v: PageVersionView, rest: Seq<u8>)
    requires
        encodable_version(v),
    ensures
        dec_page_version(enc_page_version(v) + rest) == Some((v, rest)),
{
    assert(enc_page_version(v) + rest =~= enc_opt_image(v.page_image) + (enc_opt_record(v.record)
        + rest));
    lemma_opt_image_roundtrip(v.page_image, enc_opt_record(v.record) + rest);
    lemma_opt_record_roundtrip(v.record, rest);
}

/// An entry of the version history is decoded from what follows by its
/// encoding.
pub proof fn lemma_version_entry_roundtrip(e: VersionEntryView, rest: Seq<u8>)
    requires
        encodable_version(e.version),
    ensures
        dec_version_entry(enc_version_entry(e) + rest) == Some((e, rest)),
{
    let tail2 = enc_page_version(e.version) + rest;
    let tail1 = enc_u64(e.lsn) + tail2;
    assert(enc_version_entry(e) + rest =~= enc_u32(e.blknum) + tail1);
    lemma_u32_roundtrip(e.blknum, tail1);
    lemma_u64_roundtrip(e.lsn, tail2);
    lemma_page_version_roundtrip(e.version, rest);
}

/// Entries of the version history are decoded from what follows by their
/// encoding.
pub proof fn lemma_version_entries_roundtrip(es: Seq<VersionEntryView>, rest: Seq<u8>)
    requires
        forall|i: int| 0 <= i < es.len() ==> encodable_version((#[trigger] es[i]).version),
    ensures
        dec_version_entries(enc_version_entries(es) + rest, es.len()) == Some((es, rest)),
    decreases es.len(),
{
    if es.len() == 0 {
        assert(enc_version_entries(es) + rest =~= rest);
        assert(es =~= Seq::<VersionEntryView>::empty());
    } else {
        let tail = enc_version_entries(es.drop_first()) + rest;
        assert(enc_version_entries(es) + rest =~= enc_version_entry(es[0]) + tail);
        lemma_version_entry_roundtrip(es[0], tail);
        assert forall|i: int| 0 <= i < es.drop_first().len() implies encodable_version(
            (#[trigger] es.drop_first()[i]).version,
        ) by {
            assert(es.drop_first()[i] == es[i + 1]);
        }
        lemma_version_entries_roundtrip(es.drop_first(), rest);
        assert(seq![es[0]] + es.drop_first() =~= es);
    }
}

/// The entries of a version history are decoded from the file that they
/// were encoded to.
pub proof fn lemma_version_history_roundtrip(es: Seq<VersionEntryView>)
    requires
        encodable_versions(es),
    ensures
        dec_version_history(enc_version_history(es)) == Some(es),
{
    lemma_u64_roundtrip(es.len() as u64, enc_version_entries(es));
    lemma_version_entries_roundtrip(es, Seq::<u8>::empty());
    assert(enc_version_entries(es) + Seq::<u8>::empty() =~= enc_version_entries(es));
}

/// The encoding of entries with one more at their end.
pub proof fn lemma_enc_version_entries_push(es: Seq<VersionEntryView>, e: VersionEntryView)
    ensures
        enc_version_entries(es.push(e)) == enc_version_entries(es) + enc_version_entry(e),
    decreases es.len(),
{
    let all = es.push(e);
    if es.len() == 0 {
        assert(all.drop_first() =~= Seq::<VersionEntryView>::empty());
        assert(all[0] == e);
        assert(enc_version_entries(all.drop_first()) =~= Seq::<u8>::empty());
        assert(enc_version_entries(es) =~= Seq::<u8>::empty());
        assert(enc_version_entries(all) == enc_version_entry(e) + enc_version_entries(
            all.drop_first(),
        ));
        assert(enc_version_entries(all) =~= enc_version_entries(es) + enc_version_entry(e));
    } else {
        assert(all.drop_first() =~= es.drop_first().push(e));
        lemma_enc_version_entries_push(es.drop_first(), e);
        assert(all[0] == es[0]);
        assert(enc_version_entries(all) == enc_version_entry(es[0]) + enc_version_entries(
            all.drop_first(),
        ));
        assert(enc_version_entries(es) == enc_version_entry(es[0]) + enc_version_entries(
            es.drop_first(),
        ));
        assert(enc_version_entries(all) =~= enc_version_entries(es) + enc_version_entry(e));
    }
}

/// Appends an optional image.
fn put_opt_image(out: &mut Vec<u8>, img: &Option<Bytes>)
    ensures
        final(out)@ == old(out)@ + enc_opt_image(image_view(*img)),
        image_view(*img) matches Some(b) ==> b.len() <= u64::MAX,
{
    match img {
        Some(b) => {
            let run = b.as_ref();
            let _len = run.len();
            put_bool(out, true);
            put_bytes(out, run);
        },
        None => {
            put_bool(out, false);
        },
    }
    assert(final(out)@ =~= old(out)@ + enc_opt_image(image_view(*img)));
}

/// The view of an optional record.
pub open spec fn record_view(rec: Option<WALRecord>) -> Option<WalRecordView> {
    match rec {
        Some(r) => Some(r@),
        None => None,
    }
}

/// Appends an optional WAL record.
fn put_opt_record(out: &mut Vec<u8>, rec: &Option<WALRecord>)
    ensures
        final(out)@ == old(out)@ + enc_opt_record(record_view(*rec)),
        record_view(*rec) matches Some(r) ==> r.rec.len() <= u64::MAX,
{
    match rec {
        Some(r) => {
            let run = r.rec.as_ref();
            let _len = run.len();
            put_bool(out, true);
            put_bool(out, r.will_init);
            put_bytes(out, run);
            assert(final(out)@ =~= old(out)@ + (enc_bool(true) + enc_record(r@)));
        },
        None => {
            put_bool(out, false);
        },
    }
}

/// Appends a page version.
pub fn put_version(out: &mut Vec<u8>, v: &PageVersion)
    ensures
        final(out)@ == old(out)@ + enc_page_version(v@),
        encodable_version(v@),
{
    put_opt_image(out, &v.page_image);
    put_opt_record(out, &v.record);
    assert(final(out)@ =~= old(out)@ + enc_page_version(v@));
}

/// The file of a version history.
pub fn encode_version_history(h: &VersionHistory) -> (out: Vec<u8>)
    ensures
        out@ == enc_version_history(h.entries()),
        encodable_versions(h.entries()),
{
    let mut out: Vec<u8> = Vec::new();
    let n = h.len();
    put_u64(&mut out, n as u64);
    let ghost es = h.entries();
    let mut i: usize = 0;
    assert(es.take(0) =~= Seq::<VersionEntryView>::empty());
    assert(out@ =~= enc_u64(n as u64) + enc_version_entries(es.take(0)));
    while i < n
        invariant
            i <= n == es.len(),
            es == h.entries(),
            out@ == enc_u64(n as u64) + enc_version_entries(es.take(i as int)),
            forall|j: int| 0 <= j < i ==> encodable_version((#[trigger] es[j]).version),
        decreases n - i,
    {
        let e = h.entry_at(i);
        let ghost before = out@;
        put_u32(&mut out, e.blknum);
        put_u64(&mut out, e.lsn.0);
        put_version(&mut out, &e.version);
        proof {
            assert(es.take(i + 1) =~= es.take(i as int).push(es[i as int]));
            lemma_enc_version_entries_push(es.take(i as int), es[i as int]);
            assert(out@ =~= before + enc_version_entry(es[i as int]));
            assert(out@ =~= enc_u64(n as u64) + enc_version_entries(es.take(i + 1)));
        }
        i = i + 1;
    }
    assert(es.take(n as int) =~= es);
    out
}

/// Reads an optional image at `pos`.
fn get_opt_image(buf: &[u8], pos: usize) -> (r: Option<(Option<Bytes>, usize)>)
    requires
        pos <= buf.len(),
    ensures
        match dec_opt_image(buf@.skip(pos as int)) {
            Some((v, rest)) => r matches Some((got, next)) && image_view(got) == v && pos <= next
                <= buf.len() && rest == buf@.skip(next as int),
            None => r is None,
        },
{
    match get_bool(buf, pos) {
        None => None,
        Some((present, next)) => {
            if present {
                match get_bytes(buf, next) {
                    None => None,
                    Some((run, after)) => Some((Some(Bytes::copy_from_slice(run)), after)),
                }
            } else {
                Some((None, next))
            }
        },
    }
}

/// Reads an optional WAL record at `pos`.
fn get_opt_record(buf: &[u8], pos: usize) -> (r: Option<(Option<WALRecord>, usize)>)
    requires
        pos <= buf.len(),
    ensures
        match dec_opt_record(buf@.skip(pos as int)) {
            Some((v, rest)) => r matches Some((got, next)) && record_view(got) == v && pos <= next
                <= buf.len() && rest == buf@.skip(next as int),
            None => r is None,
        },
{
    match get_bool(buf, pos) {
        None => None,
        Some((present, next)) => {
            if present {
                match get_bool(buf, next) {
                    None => None,
                    Some((will_init, next2)) => match get_bytes(buf, next2) {
                        None => None,
                        Some((run, after)) => Some(
                            (Some(WALRecord { will_init, rec: Bytes::copy_from_slice(run) }), after),
                        ),
                    },
                }
            } else {
                Some((None, next))
            }
        },
    }
}

/// Reads a page version at `pos`.
pub fn get_version(buf: &[u8], pos: usize) -> (r: Option<(PageVersion, usize)>)
    requires
        pos <= buf.len(),
    ensures
        match dec_page_version(buf@.skip(pos as int)) {
            Some((v, rest)) => r matches Some((got, next)) && got@ == v && pos <= next <= buf.len()
                && rest == buf@.skip(next as int),
            None => r is None,
        },
{
    match get_opt_image(buf, pos) {
        None => None,
        Some((page_image, next)) => match get_opt_record(buf, next) {
            None => None,
            Some((record, after)) => Some((PageVersion { page_image, record }, after)),
        },
    }
}

/// Decodes the file of a version history. Entries are entered in the order
/// in which the file holds them. `None` says that the file is malformed.
pub fn decode_version_history(buf: &[u8]) -> (r: Option<VersionHistory>)
    ensures
        match dec_version_history(buf@) {
            Some(es) => r matches Some(h) && h@ == entries_map(es),
            None => r is None,
        },
{
    assert(buf@.skip(0) =~= buf@);
    let (count, start) = match get_u64(buf, 0) {
        None => {
            return None;
        },
        Some(found) => found,
    };
    let mut h = VersionHistory::new();
    let mut pos: usize = start;
    let mut i: u64 = 0;
    let ghost mut parsed: Seq<VersionEntryView> = Seq::empty();
    let ghost whole = dec_version_entries(buf@.skip(start as int), count as nat);
    proof {
        lemma_entries_joined(whole, Seq::empty());
    }
    while i < count
        invariant
            i <= count,
            pos <= buf.len(),
            h@ == entries_map(parsed),
            dec_u64(buf@) == Some((count, buf@.skip(start as int))),
            whole == dec_version_entries(buf@.skip(start as int), count as nat),
            whole == entries_after(
                parsed,
                dec_version_entries(buf@.skip(pos as int), (count - i) as nat),
            ),
        decreases count - i,
    {
        let ghost here = buf@.skip(pos as int);
        let (blknum, after_blknum) = match get_u32(buf, pos) {
            None => {
                return None;
            },
            Some(found) => found,
        };
        let (lsn, after_lsn) = match get_u64(buf, after_blknum) {
            None => {
                return None;
            },
            Some(found) => found,
        };
        let (version, after_version) = match get_version(buf, after_lsn) {
            None => {
                return None;
            },
            Some(found) => found,
        };
        let ghost e = VersionEntryView { blknum, lsn, version: version@ };
        proof {
            assert(dec_version_entry(here) == Some((e, buf@.skip(after_version as int))));
            let later = dec_version_entries(buf@.skip(after_version as int), (count - i - 1) as nat);
            if let Some((es, _rest)) = later {
                assert(parsed + (seq![e] + es) =~= parsed.push(e) + es);
            }
            assert(parsed.push(e).drop_last() =~= parsed);
        }
        h.insert(blknum, Lsn(lsn), version);
        proof {
            parsed = parsed.push(e);
        }
        pos = after_version;
        i = i + 1;
    }
    proof {
        assert(parsed + Seq::<VersionEntryView>::empty() =~= parsed);
    }
    if pos != buf.len() {
        return None;
    }
    Some(h)
}

/// What is decoded in all where `parsed` was decoded first and `later` is
/// what decoding the rest gives.
pub open spec fn entries_after(
    parsed: Seq<VersionEntryView>,
    later: Option<(Seq<VersionEntryView>, Seq<u8>)>,
) -> Option<(Seq<VersionEntryView>, Seq<u8>)> {
    match later {
        Some((es, rest)) => Some((parsed + es, rest)),
        None => None,
    }
}

/// With nothing decoded first, all is what decoding gives.
proof fn lemma_entries_joined(
    later: Option<(Seq<VersionEntryView>, Seq<u8>)>,
    parsed: Seq<VersionEntryView>,
)
    requires
        parsed.len() == 0,
    ensures
        entries_after(parsed, later) == later,
{
    if let Some((es, _rest)) = later {
        assert(parsed + es =~= es);
    }
}

/// An entry of the size history, encoded.
pub open spec fn enc_size_entry(e: (u64, u32)) -> Seq<u8> {
    enc_u64(e.0) + enc_u32(e.1)
}

/// Entries of the size history, encoded one after another.
pub open spec fn enc_size_entries(es: Seq<(u64, u32)>) -> Seq<u8>
    decreases es.len(),
{
    if es.len() == 0 {
        Seq::<u8>::empty()
    } else {
        enc_size_entry(es[0]) + enc_size_entries(es.drop_first())
    }
}

/// The file of a size history with these entries.
pub open spec fn enc_size_history(es: Seq<(u64, u32)>) -> Seq<u8> {
    enc_u64(es.len() as u64) + enc_size_entries(es)
}

/// Decodes an entry of the size history from the front of `s`.
pub open spec fn dec_size_entry(s: Seq<u8>) -> Option<((u64, u32), Seq<u8>)> {
    match dec_u64(s) {
        Some((lsn, rest)) => match dec_u32(rest) {
            Some((size, after)) => Some(((lsn, size), after)),
            None => None,
        },
        None => None,
    }
}

/// Decodes `count` entries of the size history from the front of `s`.
pub open spec fn dec_size_entries(s: Seq<u8>, count: nat) -> Option<(Seq<(u64, u32)>, Seq<u8>)>
    decreases count,
{
    if count == 0 {
        Some((Seq::empty(), s))
    } else {
        match dec_size_entry(s) {
            Some((e, rest)) => match dec_size_entries(rest, (count - 1) as nat) {
                Some((es, after)) => Some((seq![e] + es, after)),
                None => None,
            },
            None => None,
        }
    }
}

/// Decodes the file of a size history: the entries in the order in which
/// the file holds them. `None` where the file is cut short or goes on behind
/// its last entry.
pub open spec fn dec_size_history(s: Seq<u8>) -> Option<Seq<(u64, u32)>> {
    match dec_u64(s) {
        Some((count, rest)) => match dec_size_entries(rest, count as nat) {
            Some((es, after)) => if after.len() == 0 {
                Some(es)
            } else {
                None
            },
            None => None,
        },
        None => None,
    }
}

/// An entry of the size history is decoded from what follows by its
/// encoding.
pub proof fn lemma_size_entry_roundtrip(e: (u64, u32), rest: Seq<u8>)
    ensures
        dec_size_entry(enc_size_entry(e) + rest) == Some((e, rest)),
{
    assert(enc_size_entry(e) + rest =~= enc_u64(e.0) + (enc_u32(e.1) + rest));
    lemma_u64_roundtrip(e.0, enc_u32(e.1) + rest);
    lemma_u32_roundtrip(e.1, rest);
}

/// Entries of the size history are decoded from what follows by their
/// encoding.
pub proof fn lemma_size_entries_roundtrip(es: Seq<(u64, u32)>, rest: Seq<u8>)
    ensures
        dec_size_entries(enc_size_entries(es) + rest, es.len()) == Some((es, rest)),
    decreases es.len(),
{
    if es.len() == 0 {
        assert(enc_size_entries(es) + rest =~= rest);
        assert(es =~= Seq::<(u64, u32)>::empty());
    } else {
        let tail = enc_size_entries(es.drop_first()) + rest;
        assert(enc_size_entries(es) + rest =~= enc_size_entry(es[0]) + tail);
        lemma_size_entry_roundtrip(es[0], tail);
        lemma_size_entries_roundtrip(es.drop_first(), rest);
        assert(seq![es[0]] + es.drop_first() =~= es);
    }
}

/// The entries of a size history are decoded from the file that they were
/// encoded to.
pub proof fn lemma_size_history_roundtrip(es: Seq<(u64, u32)>)
    requires
        es.len() <= u64::MAX,
    ensures
        dec_size_history(enc_size_history(es)) == Some(es),
{
    lemma_u64_roundtrip(es.len() as u64, enc_size_entries(es));
    lemma_size_entries_roundtrip(es, Seq::<u8>::empty());
    assert(enc_size_entries(es) + Seq::<u8>::empty() =~= enc_size_entries(es));
}

/// The encoding of entries with one more at their end.
pub proof fn lemma_enc_size_entries_push(es: Seq<(u64, u32)>, e: (u64, u32))
    ensures
        enc_size_entries(es.push(e)) == enc_size_entries(es) + enc_size_entry(e),
    decreases es.len(),
{
    let all = es.push(e);
    assert(enc_size_entries(all) == enc_size_entry(all[0]) + enc_size_entries(all.drop_first()));
    if es.len() == 0 {
        assert(all.drop_first() =~= Seq::<(u64, u32)>::empty());
        assert(all[0] == e);
        assert(enc_size_entries(all.drop_first()) =~= Seq::<u8>::empty());
        assert(enc_size_entries(es) =~= Seq::<u8>::empty());
        assert(enc_size_entries(all) =~= enc_size_entries(es) + enc_size_entry(e));
    } else {
        assert(all.drop_first() =~= es.drop_first().push(e));
        lemma_enc_size_entries_push(es.drop_first(), e);
        assert(all[0] == es[0]);
        assert(enc_size_entries(es) == enc_size_entry(es[0]) + enc_size_entries(es.drop_first()));
        assert(enc_size_entries(all) =~= enc_size_entries(es) + enc_size_entry(e));
    }
}

/// The file of a size history.
pub fn encode_size_history(h: &SizeHistory) -> (out: Vec<u8>)
    ensures
        out@ == enc_size_history(h.entries()),
        h.entries().len() <= u64::MAX,
{
    let mut out: Vec<u8> = Vec::new();
    let n = h.len();
    put_u64(&mut out, n as u64);
    let ghost es = h.entries();
    let mut i: usize = 0;
    assert(es.take(0) =~= Seq::<(u64, u32)>::empty());
    assert(out@ =~= enc_u64(n as u64) + enc_size_entries(es.take(0)));
    while i < n
        invariant
            i <= n == es.len(),
            es == h.entries(),
            out@ == enc_u64(n as u64) + enc_size_entries(es.take(i as int)),
        decreases n - i,
    {
        let e = h.entry_at(i);
        let ghost before = out@;
        put_u64(&mut out, e.0.0);
        put_u32(&mut out, e.1);
        proof {
            assert(es.take(i + 1) =~= es.take(i as int).push(es[i as int]));
            lemma_enc_size_entries_push(es.take(i as int), es[i as int]);
            assert(out@ =~= before + enc_size_entry(es[i as int]));
            assert(out@ =~= enc_u64(n as u64) + enc_size_entries(es.take(i + 1)));
        }
        i = i + 1;
    }
    assert(es.take(n as int) =~= es);
    out
}

/// What is decoded in all where `parsed` was decoded first and `later` is
/// what decoding the rest gives.
pub open spec fn sizes_after(
    parsed: Seq<(u64, u32)>,
    later: Option<(Seq<(u64, u32)>, Seq<u8>)>,
) -> Option<(Seq<(u64, u32)>, Seq<u8>)> {
    match later {
        Some((es, rest)) => Some((parsed + es, rest)),
        None => None,
    }
}

/// Decodes the file of a size history. Entries are entered in the order in
/// which the file holds them. `None` says that the file is malformed.
pub fn decode_size_history(buf: &[u8]) -> (r: Option<SizeHistory>)
    ensures
        match dec_size_history(buf@) {
            Some(es) => r matches Some(h) && h@ == sizes_map(es),
            None => r is None,
        },
{
    assert(buf@.skip(0) =~= buf@);
    let (count, start) = match get_u64(buf, 0) {
        None => {
            return None;
        },
        Some(found) => found,
    };
    let mut h = SizeHistory::new();
    let mut pos: usize = start;
    let mut i: u64 = 0;
    let ghost mut parsed: Seq<(u64, u32)> = Seq::empty();
    let ghost whole = dec_size_entries(buf@.skip(start as int), count as nat);
    proof {
        if let Some((es, _rest)) = whole {
            assert(parsed + es =~= es);
        }
    }
    while i < count
        invariant
            i <= count,
            pos <= buf.len(),
            h@ == sizes_map(parsed),
            dec_u64(buf@) == Some((count, buf@.skip(start as int))),
            whole == dec_size_entries(buf@.skip(start as int), count as nat),
            whole == sizes_after(
                parsed,
                dec_size_entries(buf@.skip(pos as int), (count - i) as nat),
            ),
        decreases count - i,
    {
        let ghost here = buf@.skip(pos as int);
        let (lsn, after_lsn) = match get_u64(buf, pos) {
            None => {
                return None;
            },
            Some(found) => found,
        };
        let (size, after_size) = match get_u32(buf, after_lsn) {
            None => {
                return None;
            },
            Some(found) => found,
        };
        let ghost e = (lsn, size);
        proof {
            assert(dec_size_entry(here) == Some((e, buf@.skip(after_size as int))));
            let later = dec_size_entries(buf@.skip(after_size as int), (count - i - 1) as nat);
            if let Some((es, _rest)) = later {
                assert(parsed + (seq![e] + es) =~= parsed.push(e) + es);
            }
            assert(parsed.push(e).drop_last() =~= parsed);
        }
        h.insert(Lsn(lsn), size);
        proof {
            parsed = parsed.push(e);
        }
        pos = after_size;
        i = i + 1;
    }
    proof {
        assert(parsed + Seq::<(u64, u32)>::empty() =~= parsed);
    }
    if pos != buf.len() {
        return None;
    }
    Some(h)
}

} // verus!
