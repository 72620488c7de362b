//! The control file of the database engine, as the engine lays it out in
//! memory on x86_64: little-endian numbers at fixed places, with explicit
//! padding. The layout is not portable to other architectures.

use crate::checksum::crc32c_of;
use vstd::bytes::{
    lemma_auto_spec_u32_to_from_le_bytes, lemma_auto_spec_u64_to_from_le_bytes,
    spec_u32_from_le_bytes, spec_u32_to_le_bytes, spec_u64_from_le_bytes, spec_u64_to_le_bytes,
    u32_from_le_bytes, u32_to_le_bytes, u64_from_le_bytes, u64_to_le_bytes,
};
use vstd::prelude::*;
use vstd::slice::slice_subrange;

verus! {

/// The size of the control file on disk.
pub const PG_CONTROL_FILE_SIZE: usize = 8192;

pub type Oid = u32;

pub type TransactionId = u32;

pub type MultiXactId = TransactionId;

pub type MultiXactOffset = u32;

pub type XLogRecPtr = u64;

pub type TimeLineID = u32;

#[allow(non_camel_case_types)]
pub type pg_time_t = i64;

#[allow(non_camel_case_types)]
pub type pg_crc32c = u32;

pub type DBState = u32;

#[allow(non_upper_case_globals)]
pub const DBState_DB_STARTUP: DBState = 0;

#[allow(non_upper_case_globals)]
pub const DBState_DB_SHUTDOWNED: DBState = 1;

#[allow(non_upper_case_globals)]
pub const DBState_DB_SHUTDOWNED_IN_RECOVERY: DBState = 2;

#[allow(non_upper_case_globals)]
pub const DBState_DB_SHUTDOWNING: DBState = 3;

#[allow(non_upper_case_globals)]
pub const DBState_DB_IN_CRASH_RECOVERY: DBState = 4;

#[allow(non_upper_case_globals)]
pub const DBState_DB_IN_ARCHIVE_RECOVERY: DBState = 5;

#[allow(non_upper_case_globals)]
pub const DBState_DB_IN_PRODUCTION: DBState = 6;

/// How many bytes a checkpoint takes.
pub const SIZEOF_CHECKPOINT: usize = 88;

/// How many bytes the control file data take.
pub const SIZEOF_CONTROL_FILE_DATA: usize = 296;

/// Where the checksum stands; it covers all that stands before it.
pub const OFFSETOF_CRC: usize = 288;

#[derive(Debug, Clone, Copy, Default, PartialEq, Eq, Structural)]
pub struct FullTransactionId {
    pub value: u64,
}

#[allow(non_snake_case)]
#[derive(Debug, Clone, Default)]
pub struct CheckPoint {
    pub redo: XLogRecPtr,
    pub ThisTimeLineID: TimeLineID,
    pub PrevTimeLineID: TimeLineID,
    /// A flag; one byte.
    pub fullPageWrites: u8,
    /// Padding that aligns the 64-bit field that follows.
    pub __padding1: [u8; 7],
    pub nextXid: FullTransactionId,
    pub nextOid: Oid,
    pub nextMulti: MultiXactId,
    pub nextMultiOffset: MultiXactOffset,
    pub oldestXid: TransactionId,
    pub oldestXidDB: Oid,
    pub oldestMulti: MultiXactId,
    pub oldestMultiDB: Oid,
    /// Padding that aligns the 64-bit field that follows.
    pub __padding4: [u8; 4],
    pub time: pg_time_t,
    pub oldestCommitTsXid: TransactionId,
    pub newestCommitTsXid: TransactionId,
    pub oldestActiveXid: TransactionId,
    /// Padding that aligns the end of the struct.
    pub __padding5: [u8; 4],
}

#[allow(non_snake_case)]
#[derive(Debug, Clone, Default)]
pub struct ControlFileData {
    pub system_identifier: u64,
    pub pg_control_version: u32,
    pub catalog_version_no: u32,
    pub state: DBState,
    /// Padding that aligns the 64-bit field that follows.
    pub __padding1: [u8; 4],
    pub time: pg_time_t,
    pub checkPoint: XLogRecPtr,
    pub checkPointCopy: CheckPoint,
    pub unloggedLSN: XLogRecPtr,
    pub minRecoveryPoint: XLogRecPtr,
    pub minRecoveryPointTLI: TimeLineID,
    /// Padding that aligns the 64-bit field that follows.
    pub __padding2: [u8; 4],
    pub backupStartPoint: XLogRecPtr,
    pub backupEndPoint: XLogRecPtr,
    /// A flag; one byte.
    pub backupEndRequired: u8,
    /// Padding that aligns the 32-bit field that follows.
    pub __padding3: [u8; 3],
    pub wal_level: u32,
    /// A flag; one byte.
    pub wal_log_hints: u8,
    /// Padding that aligns the 32-bit field that follows.
    pub __padding4: [u8; 3],
    pub MaxConnections: u32,
    pub max_worker_processes: u32,
    pub max_wal_senders: u32,
    pub max_prepared_xacts: u32,
    pub max_locks_per_xact: u32,
    /// A flag; one byte.
    pub track_commit_timestamp: u8,
    /// Padding that aligns the 32-bit field that follows.
    pub __padding5: [u8; 3],
    pub maxAlign: u32,
    /// The bits of a double-precision number that shows the format of
    /// floating-point numbers.
    pub floatFormat: u64,
    pub blcksz: u32,
    pub relseg_size: u32,
    pub xlog_blcksz: u32,
    pub xlog_seg_size: u32,
    pub nameDataLen: u32,
    pub indexMaxKeys: u32,
    pub toast_max_chunk_size: u32,
    pub loblksize: u32,
    /// A flag; one byte.
    pub float8ByVal: u8,
    /// Padding that aligns the 32-bit field that follows.
    pub __padding6: [u8; 3],
    pub data_checksum_version: u32,
    pub mock_authentication_nonce: [u8; 32],
    pub crc: pg_crc32c,
    /// Padding that aligns the end of the struct.
    pub __padding7: [u8; 4],
}

/// `Vec::into_boxed_slice` hands the elements of the vector over to a boxed
/// slice, in their order.
#[verifier::external_body]
fn into_boxed_slice(v: Vec<u8>) -> (b: Box<[u8]>)
    ensures
        b@ == v@,
{
    v.into_boxed_slice()
}

/// A 32-bit number, least significant byte first.
pub open spec fn le32(x: u32) -> Seq<u8> {
    spec_u32_to_le_bytes(x)
}

/// A 64-bit number, least significant byte first.
pub open spec fn le64(x: u64) -> Seq<u8> {
    spec_u64_to_le_bytes(x)
}

/// One byte.
pub open spec fn byte(x: u8) -> Seq<u8> {
    seq![x]
}

/// The 32-bit number that stands at `at`.
pub open spec fn le32_at(s: Seq<u8>, at: int) -> u32 {
    spec_u32_from_le_bytes(s.subrange(at, at + 4))
}

/// The 64-bit number that stands at `at`.
pub open spec fn le64_at(s: Seq<u8>, at: int) -> u64 {
    spec_u64_from_le_bytes(s.subrange(at, at + 8))
}

fn put_le32(out: &mut Vec<u8>, x: u32)
    ensures
        final(out)@ == old(out)@ + le32(x),
{
    let v = u32_to_le_bytes(x);
    out.extend_from_slice(v.as_slice());
}

fn put_le64(out: &mut Vec<u8>, x: u64)
    ensures
        final(out)@ == old(out)@ + le64(x),
{
    let v = u64_to_le_bytes(x);
    out.extend_from_slice(v.as_slice());
}

fn put_byte(out: &mut Vec<u8>, x: u8)
    ensures
        final(out)@ == old(out)@ + byte(x),
{
    out.push(x);
    assert(final(out)@ =~= old(out)@ + byte(x));
}

fn put_pad<const N: usize>(out: &mut Vec<u8>, pad: &[u8; N])
    ensures
        final(out)@ == old(out)@ + pad@,
{
    out.extend_from_slice(pad.as_slice());
}

fn get_le32(buf: &[u8], at: usize) -> (x: u32)
    requires
        at + 4 <= buf.len(),
    ensures
        x == le32_at(buf@, at as int),
{
    u32_from_le_bytes(slice_subrange(buf, at, at + 4))
}

fn get_le64(buf: &[u8], at: usize) -> (x: u64)
    requires
        at + 8 <= buf.len(),
    ensures
        x == le64_at(buf@, at as int),
{
    u64_from_le_bytes(slice_subrange(buf, at, at + 8))
}

fn get_pad3(buf: &[u8], at: usize) -> (pad: [u8; 3])
    requires
        at + 3 <= buf.len(),
    ensures
        pad@ == buf@.subrange(at as int, at + 3),
{
    let pad = [buf[at], buf[at + 1], buf[at + 2]];
    assert(pad@ =~= buf@.subrange(at as int, at + 3));
    pad
}

fn get_pad4(buf: &[u8], at: usize) -> (pad: [u8; 4])
    requires
        at + 4 <= buf.len(),
    ensures
        pad@ == buf@.subrange(at as int, at + 4),
{
    let pad = [buf[at], buf[at + 1], buf[at + 2], buf[at + 3]];
    assert(pad@ =~= buf@.subrange(at as int, at + 4));
    pad
}

fn get_pad7(buf: &[u8], at: usize) -> (pad: [u8; 7])
    requires
        at + 7 <= buf.len(),
    ensures
        pad@ == buf@.subrange(at as int, at + 7),
{
    let pad = [
        buf[at],
        buf[at + 1],
        buf[at + 2],
        buf[at + 3],
        buf[at + 4],
        buf[at + 5],
        buf[at + 6],
    ];
    assert(pad@ =~= buf@.subrange(at as int, at + 7));
    pad
}

fn get_pad32(buf: &[u8], at: usize) -> (pad: [u8; 32])
    requires
        at + 32 <= buf.len(),
    ensures
        pad@ == buf@.subrange(at as int, at + 32),
{
    let pad = [
        buf[at],
        buf[at + 1],
        buf[at + 2],
        buf[at + 3],
        buf[at + 4],
        buf[at + 5],
        buf[at + 6],
        buf[at + 7],
        buf[at + 8],
        buf[at + 9],
        buf[at + 10],
        buf[at + 11],
        buf[at + 12],
        buf[at + 13],
        buf[at + 14],
        buf[at + 15],
        buf[at + 16],
        buf[at + 17],
        buf[at + 18],
        buf[at + 19],
        buf[at + 20],
        buf[at + 21],
        buf[at + 22],
        buf[at + 23],
        buf[at + 24],
        buf[at + 25],
        buf[at + 26],
        buf[at + 27],
        buf[at + 28],
        buf[at + 29],
        buf[at + 30],
        buf[at + 31],
    ];
    assert(pad@ =~= buf@.subrange(at as int, at + 32));
    pad
}

impl CheckPoint {
    /// The bytes of the checkpoint, behind `pre`.
    pub open spec fn spec_append(self, pre: Seq<u8>) -> Seq<u8> {
        pre + le64(self.redo) + le32(self.ThisTimeLineID) + le32(self.PrevTimeLineID) + byte(
            self.fullPageWrites,
        ) + self.__padding1@ + le64(self.nextXid.value) + le32(self.nextOid) + le32(self.nextMulti)
            + le32(self.nextMultiOffset) + le32(self.oldestXid) + le32(self.oldestXidDB) + le32(
            self.oldestMulti,
        ) + le32(self.oldestMultiDB) + self.__padding4@ + le64(self.time as u64) + le32(
            self.oldestCommitTsXid,
        ) + le32(self.newestCommitTsXid) + le32(self.oldestActiveXid) + self.__padding5@
    }

    /// The 88 bytes of `s` from `at` on hold this checkpoint.
    pub open spec fn decoded_from(self, s: Seq<u8>, at: int) -> bool {
        &&& self.redo == le64_at(s, at)
        &&& self.ThisTimeLineID == le32_at(s, at + 8)
        &&& self.PrevTimeLineID == le32_at(s, at + 12)
        &&& self.fullPageWrites == s[at + 16]
        &&& self.__padding1@ == s.subrange(at + 17, at + 24)
        &&& self.nextXid.value == le64_at(s, at + 24)
        &&& self.nextOid == le32_at(s, at + 32)
        &&& self.nextMulti == le32_at(s, at + 36)
        &&& self.nextMultiOffset == le32_at(s, at + 40)
        &&& self.oldestXid == le32_at(s, at + 44)
        &&& self.oldestXidDB == le32_at(s, at + 48)
        &&& self.oldestMulti == le32_at(s, at + 52)
        &&& self.oldestMultiDB == le32_at(s, at + 56)
        &&& self.__padding4@ == s.subrange(at + 60, at + 64)
        &&& self.time == le64_at(s, at + 64) as i64
        &&& self.oldestCommitTsXid == le32_at(s, at + 72)
        &&& self.newestCommitTsXid == le32_at(s, at + 76)
        &&& self.oldestActiveXid == le32_at(s, at + 80)
        &&& self.__padding5@ == s.subrange(at + 84, at + 88)
    }

    /// Appends the bytes of the checkpoint.
    pub fn append_to(&self, out: &mut Vec<u8>)
        ensures
            final(out)@ == self.spec_append(old(out)@),
    {
        put_le64(out, self.redo);
        put_le32(out, self.ThisTimeLineID);
        put_le32(out, self.PrevTimeLineID);
        put_byte(out, self.fullPageWrites);
        put_pad(out, &self.__padding1);
        put_le64(out, self.nextXid.value);
        put_le32(out, self.nextOid);
        put_le32(out, self.nextMulti);
        put_le32(out, self.nextMultiOffset);
        put_le32(out, self.oldestXid);
        put_le32(out, self.oldestXidDB);
        put_le32(out, self.oldestMulti);
        put_le32(out, self.oldestMultiDB);
        put_pad(out, &self.__padding4);
        put_le64(out, #[verifier::truncate] (self.time as u64));
        put_le32(out, self.oldestCommitTsXid);
        put_le32(out, self.newestCommitTsXid);
        put_le32(out, self.oldestActiveXid);
        put_pad(out, &self.__padding5);
    }

    /// Reads the checkpoint that stands at `at`.
    pub fn decode_at(buf: &[u8], at: usize) -> (cp: CheckPoint)
        requires
            at + SIZEOF_CHECKPOINT <= buf.len(),
        ensures
            cp.decoded_from(buf@, at as int),
    {
        CheckPoint {
            redo: get_le64(buf, at),
            ThisTimeLineID: get_le32(buf, at + 8),
            PrevTimeLineID: get_le32(buf, at + 12),
            fullPageWrites: buf[at + 16],
            __padding1: get_pad7(buf, at + 17),
            nextXid: FullTransactionId { value: get_le64(buf, at + 24) },
            nextOid: get_le32(buf, at + 32),
            nextMulti: get_le32(buf, at + 36),
            nextMultiOffset: get_le32(buf, at + 40),
            oldestXid: get_le32(buf, at + 44),
            oldestXidDB: get_le32(buf, at + 48),
            oldestMulti: get_le32(buf, at + 52),
            oldestMultiDB: get_le32(buf, at + 56),
            __padding4: get_pad4(buf, at + 60),
            time: #[verifier::truncate] (get_le64(buf, at + 64) as i64),
            oldestCommitTsXid: get_le32(buf, at + 72),
            newestCommitTsXid: get_le32(buf, at + 76),
            oldestActiveXid: get_le32(buf, at + 80),
            __padding5: get_pad4(buf, at + 84),
        }
    }
}

/// Why bytes are not taken for control file data.
#[derive(Debug, Clone, Copy, PartialEq, Eq, Structural)]
pub enum ControlFileError {
    /// There are fewer bytes than the control file data take.
    TooShort { len: usize },
    /// The checksum in the bytes is not that of the bytes before it.
    InvalidCrc { expected: u32, was: u32 },
}

impl ControlFileData {
    /// The bytes of the control file data that stand before the checksum,
    /// behind `pre`.
    pub open spec fn spec_append_head(self, pre: Seq<u8>) -> Seq<u8> {
        self.checkPointCopy.spec_append(
            pre + le64(self.system_identifier) + le32(self.pg_control_version) + le32(
                self.catalog_version_no,
            ) + le32(self.state) + self.__padding1@ + le64(self.time as u64) + le64(
                self.checkPoint,
            ),
        ) + le64(self.unloggedLSN) + le64(self.minRecoveryPoint) + le32(self.minRecoveryPointTLI)
            + self.__padding2@ + le64(self.backupStartPoint) + le64(self.backupEndPoint) + byte(
            self.backupEndRequired,
        ) + self.__padding3@ + le32(self.wal_level) + byte(self.wal_log_hints) + self.__padding4@
            + le32(self.MaxConnections) + le32(self.max_worker_processes) + le32(
            self.max_wal_senders,
        ) + le32(self.max_prepared_xacts) + le32(self.max_locks_per_xact) + byte(
            self.track_commit_timestamp,
        ) + self.__padding5@ + le32(self.maxAlign) + le64(self.floatFormat) + le32(self.blcksz)
            + le32(self.relseg_size) + le32(self.xlog_blcksz) + le32(self.xlog_seg_size) + le32(
            self.nameDataLen,
        ) + le32(self.indexMaxKeys) + le32(self.toast_max_chunk_size) + le32(self.loblksize)
            + byte(self.float8ByVal) + self.__padding6@ + le32(self.data_checksum_version)
            + self.mock_authentication_nonce@
    }

    /// The bytes of the control file data, behind `pre`.
    pub open spec fn spec_append(self, pre: Seq<u8>) -> Seq<u8> {
        self.spec_append_head(pre) + le32(self.crc) + self.__padding7@
    }

    /// The bytes that the checksum covers.
    pub open spec fn spec_head(self) -> Seq<u8> {
        self.spec_append_head(Seq::empty())
    }

    /// The bytes of the control file data.
    pub open spec fn spec_bytes(self) -> Seq<u8> {
        self.spec_append(Seq::empty())
    }

    /// The first 296 bytes of `s` hold these control file data.
    pub open spec fn decoded_from(self, s: Seq<u8>) -> bool {
        &&& self.system_identifier == le64_at(s, 0)
        &&& self.pg_control_version == le32_at(s, 8)
        &&& self.catalog_version_no == le32_at(s, 12)
        &&& self.state == le32_at(s, 16)
        &&& self.__padding1@ == s.subrange(20, 24)
        &&& self.time == le64_at(s, 24) as i64
        &&& self.checkPoint == le64_at(s, 32)
        &&& self.checkPointCopy.decoded_from(s, 40)
        &&& self.unloggedLSN == le64_at(s, 128)
        &&& self.minRecoveryPoint == le64_at(s, 136)
        &&& self.minRecoveryPointTLI == le32_at(s, 144)
        &&& self.__padding2@ == s.subrange(148, 152)
        &&& self.backupStartPoint == le64_at(s, 152)
        &&& self.backupEndPoint == le64_at(s, 160)
        &&& self.backupEndRequired == s[168]
        &&& self.__padding3@ == s.subrange(169, 172)
        &&& self.wal_level == le32_at(s, 172)
        &&& self.wal_log_hints == s[176]
        &&& self.__padding4@ == s.subrange(177, 180)
        &&& self.MaxConnections == le32_at(s, 180)
        &&& self.max_worker_processes == le32_at(s, 184)
        &&& self.max_wal_senders == le32_at(s, 188)
        &&& self.max_prepared_xacts == le32_at(s, 192)
        &&& self.max_locks_per_xact == le32_at(s, 196)
        &&& self.track_commit_timestamp == s[200]
        &&& self.__padding5@ == s.subrange(201, 204)
        &&& self.maxAlign == le32_at(s, 204)
        &&& self.floatFormat == le64_at(s, 208)
        &&& self.blcksz == le32_at(s, 216)
        &&& self.relseg_size == le32_at(s, 220)
        &&& self.xlog_blcksz == le32_at(s, 224)
        &&& self.xlog_seg_size == le32_at(s, 228)
        &&& self.nameDataLen == le32_at(s, 232)
        &&& self.indexMaxKeys == le32_at(s, 236)
        &&& self.toast_max_chunk_size == le32_at(s, 240)
        &&& self.loblksize == le32_at(s, 244)
        &&& self.float8ByVal == s[248]
        &&& self.__padding6@ == s.subrange(249, 252)
        &&& self.data_checksum_version == le32_at(s, 252)
        &&& self.mock_authentication_nonce@ == s.subrange(256, 288)
        &&& self.crc == le32_at(s, 288)
        &&& self.__padding7@ == s.subrange(292, 296)
    }

    /// These data with the checksum `crc`.
    pub open spec fn spec_with_crc(self, crc: u32) -> ControlFileData {
        ControlFileData { crc, ..self }
    }

    /// The checksum of these data: that of the bytes that stand before the
    /// checksum.
    pub open spec fn spec_crc(self) -> u32 {
        crc32c_of(self.spec_head())
    }

    /// The bytes of these data with their checksum set.
    pub open spec fn spec_encode(self) -> Seq<u8> {
        self.spec_with_crc(self.spec_crc()).spec_bytes()
    }

    /// The bytes of the control file data as they stand, the checksum
    /// included.
    pub fn to_bytes(&self) -> (out: Vec<u8>)
        ensures
            out@ == self.spec_bytes(),
    {
        let mut out: Vec<u8> = Vec::new();
        assert(out@ =~= Seq::<u8>::empty());
        put_le64(&mut out, self.system_identifier);
        put_le32(&mut out, self.pg_control_version);
        put_le32(&mut out, self.catalog_version_no);
        put_le32(&mut out, self.state);
        put_pad(&mut out, &self.__padding1);
        put_le64(&mut out, #[verifier::truncate] (self.time as u64));
        put_le64(&mut out, self.checkPoint);
        self.checkPointCopy.append_to(&mut out);
        put_le64(&mut out, self.unloggedLSN);
        put_le64(&mut out, self.minRecoveryPoint);
        put_le32(&mut out, self.minRecoveryPointTLI);
        put_pad(&mut out, &self.__padding2);
        put_le64(&mut out, self.backupStartPoint);
        put_le64(&mut out, self.backupEndPoint);
        put_byte(&mut out, self.backupEndRequired);
        put_pad(&mut out, &self.__padding3);
        put_le32(&mut out, self.wal_level);
        put_byte(&mut out, self.wal_log_hints);
        put_pad(&mut out, &self.__padding4);
        put_le32(&mut out, self.MaxConnections);
        put_le32(&mut out, self.max_worker_processes);
        put_le32(&mut out, self.max_wal_senders);
        put_le32(&mut out, self.max_prepared_xacts);
        put_le32(&mut out, self.max_locks_per_xact);
        put_byte(&mut out, self.track_commit_timestamp);
        put_pad(&mut out, &self.__padding5);
        put_le32(&mut out, self.maxAlign);
        put_le64(&mut out, self.floatFormat);
        put_le32(&mut out, self.blcksz);
        put_le32(&mut out, self.relseg_size);
        put_le32(&mut out, self.xlog_blcksz);
        put_le32(&mut out, self.xlog_seg_size);
        put_le32(&mut out, self.nameDataLen);
        put_le32(&mut out, self.indexMaxKeys);
        put_le32(&mut out, self.toast_max_chunk_size);
        put_le32(&mut out, self.loblksize);
        put_byte(&mut out, self.float8ByVal);
        put_pad(&mut out, &self.__padding6);
        put_le32(&mut out, self.data_checksum_version);
        put_pad(&mut out, &self.mock_authentication_nonce);
        put_le32(&mut out, self.crc);
        put_pad(&mut out, &self.__padding7);
        out
    }

    /// Reads control file data from the front of `buf`; the checksum is
    /// read, not checked.
    pub fn from_bytes(buf: &[u8]) -> (c: ControlFileData)
        requires
            buf.len() >= SIZEOF_CONTROL_FILE_DATA,
        ensures
            c.decoded_from(buf@),
    {
        ControlFileData {
            system_identifier: get_le64(buf, 0),
            pg_control_version: get_le32(buf, 8),
            catalog_version_no: get_le32(buf, 12),
            state: get_le32(buf, 16),
            __padding1: get_pad4(buf, 20),
            time: #[verifier::truncate] (get_le64(buf, 24) as i64),
            checkPoint: get_le64(buf, 32),
            checkPointCopy: CheckPoint::decode_at(buf, 40),
            unloggedLSN: get_le64(buf, 128),
            minRecoveryPoint: get_le64(buf, 136),
            minRecoveryPointTLI: get_le32(buf, 144),
            __padding2: get_pad4(buf, 148),
            backupStartPoint: get_le64(buf, 152),
            backupEndPoint: get_le64(buf, 160),
            backupEndRequired: buf[168],
            __padding3: get_pad3(buf, 169),
            wal_level: get_le32(buf, 172),
            wal_log_hints: buf[176],
            __padding4: get_pad3(buf, 177),
            MaxConnections: get_le32(buf, 180),
            max_worker_processes: get_le32(buf, 184),
            max_wal_senders: get_le32(buf, 188),
            max_prepared_xacts: get_le32(buf, 192),
            max_locks_per_xact: get_le32(buf, 196),
            track_commit_timestamp: buf[200],
            __padding5: get_pad3(buf, 201),
            maxAlign: get_le32(buf, 204),
            floatFormat: get_le64(buf, 208),
            blcksz: get_le32(buf, 216),
            relseg_size: get_le32(buf, 220),
            xlog_blcksz: get_le32(buf, 224),
            xlog_seg_size: get_le32(buf, 228),
            nameDataLen: get_le32(buf, 232),
            indexMaxKeys: get_le32(buf, 236),
            toast_max_chunk_size: get_le32(buf, 240),
            loblksize: get_le32(buf, 244),
            float8ByVal: buf[248],
            __padding6: get_pad3(buf, 249),
            data_checksum_version: get_le32(buf, 252),
            mock_authentication_nonce: get_pad32(buf, 256),
            crc: get_le32(buf, 288),
            __padding7: get_pad4(buf, 292),
        }
    }

    /// Accepts data whose checksum is the expected one.
    pub fn check_crc(self, expected: u32) -> (r: Result<ControlFileData, ControlFileError>)
        ensures
            r == (if expected == self.crc {
                Ok::<ControlFileData, ControlFileError>(self)
            } else {
                Err::<ControlFileData, ControlFileError>(
                    ControlFileError::InvalidCrc { expected, was: self.crc },
                )
            }),
    {
        if expected != self.crc {
            Err(ControlFileError::InvalidCrc { expected, was: self.crc })
        } else {
            Ok(self)
        }
    }

    /// The bytes of these data with the checksum `crc` in its place.
    pub fn with_crc(self, crc: u32) -> (out: Vec<u8>)
        ensures
            out@ == self.spec_with_crc(crc).spec_bytes(),
    {
        let mut data = self;
        data.crc = crc;
        data.to_bytes()
    }
}

/// A part of a sequence that a front part of the sequence ends in stands
/// behind what comes before it in that front part.
proof fn lemma_piece(whole: Seq<u8>, p: Seq<u8>, f: Seq<u8>)
    requires
        (p + f).is_prefix_of(whole),
    ensures
        p.is_prefix_of(whole),
        whole.subrange(p.len() as int, p.len() as int + f.len()) == f,
{
    let both = p + f;
    let front = whole.subrange(0, both.len() as int);
    assert(front == both);
    assert forall|i: int| 0 <= i < both.len() implies whole[i] == both[i] by {
        assert(front[i] == whole[i]);
    }
    assert(whole.subrange(0, p.len() as int) =~= p) by {
        assert forall|i: int| 0 <= i < p.len() implies whole[i] == p[i] by {
            assert(both[i] == p[i]);
        }
    }
    assert(whole.subrange(p.len() as int, p.len() as int + f.len()) =~= f) by {
        assert forall|i: int| 0 <= i < f.len() implies whole[p.len() + i] == f[i] by {
            assert(both[p.len() + i] == f[i]);
        }
    }
}

impl CheckPoint {
    /// Where the bytes of a checkpoint stand behind `pre` in a sequence that
    /// starts with them, the checkpoint is read back from there.
    pub proof fn lemma_layout(self, pre: Seq<u8>, whole: Seq<u8>)
        requires
            self.spec_append(pre).is_prefix_of(whole),
        ensures
            pre.is_prefix_of(whole),
            self.spec_append(pre).len() == pre.len() + SIZEOF_CHECKPOINT,
            self.decoded_from(whole, pre.len() as int),
    {
        lemma_auto_spec_u32_to_from_le_bytes();
        lemma_auto_spec_u64_to_from_le_bytes();
        let at = pre.len() as int;

        let front1 = pre + le64(self.redo);
        let front2 = front1 + le32(self.ThisTimeLineID);
        let front3 = front2 + le32(self.PrevTimeLineID);
        let front4 = front3 + byte(self.fullPageWrites);
        let front5 = front4 + self.__padding1@;
        let front6 = front5 + le64(self.nextXid.value);
        let front7 = front6 + le32(self.nextOid);
        let front8 = front7 + le32(self.nextMulti);
        let front9 = front8 + le32(self.nextMultiOffset);
        let front10 = front9 + le32(self.oldestXid);
        let front11 = front10 + le32(self.oldestXidDB);
        let front12 = front11 + le32(self.oldestMulti);
        let front13 = front12 + le32(self.oldestMultiDB);
        let front14 = front13 + self.__padding4@;
        let front15 = front14 + le64(self.time as u64);
        let front16 = front15 + le32(self.oldestCommitTsXid);
        let front17 = front16 + le32(self.newestCommitTsXid);
        let front18 = front17 + le32(self.oldestActiveXid);
        let front19 = front18 + self.__padding5@;
        assert(front19 == self.spec_append(pre));
        lemma_piece(whole, front18, self.__padding5@);
        lemma_piece(whole, front17, le32(self.oldestActiveXid));
        lemma_piece(whole, front16, le32(self.newestCommitTsXid));
        lemma_piece(whole, front15, le32(self.oldestCommitTsXid));
        lemma_piece(whole, front14, le64(self.time as u64));
        lemma_piece(whole, front13, self.__padding4@);
        lemma_piece(whole, front12, le32(self.oldestMultiDB));
        lemma_piece(whole, front11, le32(self.oldestMulti));
        lemma_piece(whole, front10, le32(self.oldestXidDB));
        lemma_piece(whole, front9, le32(self.oldestXid));
        lemma_piece(whole, front8, le32(self.nextMultiOffset));
        lemma_piece(whole, front7, le32(self.nextMulti));
        lemma_piece(whole, front6, le32(self.nextOid));
        lemma_piece(whole, front5, le64(self.nextXid.value));
        lemma_piece(whole, front4, self.__padding1@);
        lemma_piece(whole, front3, byte(self.fullPageWrites));
        lemma_piece(whole, front2, le32(self.PrevTimeLineID));
        lemma_piece(whole, front1, le32(self.ThisTimeLineID));
        lemma_piece(whole, pre, le64(self.redo));
        assert(whole.subrange(at + 16, at + 16 + 1)[0] == self.fullPageWrites);
        assert(le64_at(whole, at + 64) as i64 == self.time) by {
            let t = self.time;
            assert((t as u64) as i64 == t) by (bit_vector);
        }
    }
}

impl ControlFileData {
    /// Where the bytes of control file data stand at the front of a
    /// sequence, the data are read back from it.
    pub proof fn lemma_layout(self, whole: Seq<u8>)
        requires
            self.spec_bytes().is_prefix_of(whole),
        ensures
            self.spec_bytes().len() == SIZEOF_CONTROL_FILE_DATA,
            self.spec_head() == whole.take(OFFSETOF_CRC as int),
            self.decoded_from(whole),
    {
        lemma_auto_spec_u32_to_from_le_bytes();
        lemma_auto_spec_u64_to_from_le_bytes();
        let pre = Seq::<u8>::empty();
        let at = 0int;

        let front1 = pre + le64(self.system_identifier);
        let front2 = front1 + le32(self.pg_control_version);
        let front3 = front2 + le32(self.catalog_version_no);
        let front4 = front3 + le32(self.state);
        let front5 = front4 + self.__padding1@;
        let front6 = front5 + le64(self.time as u64);
        let front7 = front6 + le64(self.checkPoint);
        let behind_checkpoint = self.checkPointCopy.spec_append(front7);
        let front9 = behind_checkpoint + le64(self.unloggedLSN);
        let front10 = front9 + le64(self.minRecoveryPoint);
        let front11 = front10 + le32(self.minRecoveryPointTLI);
        let front12 = front11 + self.__padding2@;
        let front13 = front12 + le64(self.backupStartPoint);
        let front14 = front13 + le64(self.backupEndPoint);
        let front15 = front14 + byte(self.backupEndRequired);
        let front16 = front15 + self.__padding3@;
        let front17 = front16 + le32(self.wal_level);
        let front18 = front17 + byte(self.wal_log_hints);
        let front19 = front18 + self.__padding4@;
        let front20 = front19 + le32(self.MaxConnections);
        let front21 = front20 + le32(self.max_worker_processes);
        let front22 = front21 + le32(self.max_wal_senders);
        let front23 = front22 + le32(self.max_prepared_xacts);
        let front24 = front23 + le32(self.max_locks_per_xact);
        let front25 = front24 + byte(self.track_commit_timestamp);
        let front26 = front25 + self.__padding5@;
        let front27 = front26 + le32(self.maxAlign);
        let front28 = front27 + le64(self.floatFormat);
        let front29 = front28 + le32(self.blcksz);
        let front30 = front29 + le32(self.relseg_size);
        let front31 = front30 + le32(self.xlog_blcksz);
        let front32 = front31 + le32(self.xlog_seg_size);
        let front33 = front32 + le32(self.nameDataLen);
        let front34 = front33 + le32(self.indexMaxKeys);
        let front35 = front34 + le32(self.toast_max_chunk_size);
        let front36 = front35 + le32(self.loblksize);
        let front37 = front36 + byte(self.float8ByVal);
        let front38 = front37 + self.__padding6@;
        let front39 = front38 + le32(self.data_checksum_version);
        let front40 = front39 + self.mock_authentication_nonce@;
        let front41 = front40 + le32(self.crc);
        let front42 = front41 + self.__padding7@;
        assert(front42 == self.spec_bytes());
        assert(front40 == self.spec_head());
        lemma_piece(whole, front41, self.__padding7@);
        lemma_piece(whole, front40, le32(self.crc));
        lemma_piece(whole, front39, self.mock_authentication_nonce@);
        lemma_piece(whole, front38, le32(self.data_checksum_version));
        lemma_piece(whole, front37, self.__padding6@);
        lemma_piece(whole, front36, byte(self.float8ByVal));
        lemma_piece(whole, front35, le32(self.loblksize));
        lemma_piece(whole, front34, le32(self.toast_max_chunk_size));
        lemma_piece(whole, front33, le32(self.indexMaxKeys));
        lemma_piece(whole, front32, le32(self.nameDataLen));
        lemma_piece(whole, front31, le32(self.xlog_seg_size));
        lemma_piece(whole, front30, le32(self.xlog_blcksz));
        lemma_piece(whole, front29, le32(self.relseg_size));
        lemma_piece(whole, front28, le32(self.blcksz));
        lemma_piece(whole, front27, le64(self.floatFormat));
        lemma_piece(whole, front26, le32(self.maxAlign));
        lemma_piece(whole, front25, self.__padding5@);
        lemma_piece(whole, front24, byte(self.track_commit_timestamp));
        lemma_piece(whole, front23, le32(self.max_locks_per_xact));
        lemma_piece(whole, front22, le32(self.max_prepared_xacts));
        lemma_piece(whole, front21, le32(self.max_wal_senders));
        lemma_piece(whole, front20, le32(self.max_worker_processes));
        lemma_piece(whole, front19, le32(self.MaxConnections));
        lemma_piece(whole, front18, self.__padding4@);
        lemma_piece(whole, front17, byte(self.wal_log_hints));
        lemma_piece(whole, front16, le32(self.wal_level));
        lemma_piece(whole, front15, self.__padding3@);
        lemma_piece(whole, front14, byte(self.backupEndRequired));
        lemma_piece(whole, front13, le64(self.backupEndPoint));
        lemma_piece(whole, front12, le64(self.backupStartPoint));
        lemma_piece(whole, front11, self.__padding2@);
        lemma_piece(whole, front10, le32(self.minRecoveryPointTLI));
        lemma_piece(whole, front9, le64(self.minRecoveryPoint));
        lemma_piece(whole, behind_checkpoint, le64(self.unloggedLSN));
        self.checkPointCopy.lemma_layout(front7, whole);
        lemma_piece(whole, front6, le64(self.checkPoint));
        lemma_piece(whole, front5, le64(self.time as u64));
        lemma_piece(whole, front4, self.__padding1@);
        lemma_piece(whole, front3, le32(self.state));
        lemma_piece(whole, front2, le32(self.catalog_version_no));
        lemma_piece(whole, front1, le32(self.pg_control_version));
        lemma_piece(whole, pre, le64(self.system_identifier));
        assert(le64_at(whole, at + 24) as i64 == self.time) by {
            let t = self.time;
            assert((t as u64) as i64 == t) by (bit_vector);
        }
        assert(whole.subrange(168int, 169int)[0] == self.backupEndRequired);
        assert(whole.subrange(176int, 177int)[0] == self.wal_log_hints);
        assert(whole.subrange(200int, 201int)[0] == self.track_commit_timestamp);
        assert(whole.subrange(248int, 249int)[0] == self.float8ByVal);
        assert(front40.len() == OFFSETOF_CRC);
        assert(whole.take(OFFSETOF_CRC as int) =~= front40);
    }
}

impl ControlFileData {
    /// The bytes of these data with their checksum set: the checksum is
    /// computed over the bytes that stand before it and put in its place.
    pub fn encode(self) -> (out: Box<[u8]>)
        ensures
            out@ == self.spec_encode(),
            out@.len() == SIZEOF_CONTROL_FILE_DATA,
    {
        let bytes = self.to_bytes();
        proof {
            assert(bytes@.subrange(0, bytes@.len() as int) =~= bytes@);
            self.lemma_layout(bytes@);
            let filled = self.spec_with_crc(self.spec_crc());
            assert(filled.spec_bytes().subrange(0, filled.spec_bytes().len() as int)
                =~= filled.spec_bytes());
            filled.lemma_layout(filled.spec_bytes());
        }
        let covered = slice_subrange(bytes.as_slice(), 0, OFFSETOF_CRC);
        assert(covered@ =~= bytes@.take(OFFSETOF_CRC as int));
        let crc = crc32c::crc32c(covered);
        into_boxed_slice(self.with_crc(crc))
    }

    /// Reads control file data from the front of `buf` and checks their
    /// checksum.
    pub fn decode(buf: &[u8]) -> (r: Result<ControlFileData, ControlFileError>)
        ensures
            match r {
                Ok(c) => buf.len() >= SIZEOF_CONTROL_FILE_DATA && c.decoded_from(buf@)
                    && le32_at(buf@, OFFSETOF_CRC as int) == crc32c_of(
                    buf@.take(OFFSETOF_CRC as int),
                ),
                Err(ControlFileError::TooShort { len }) => len == buf.len() && buf.len()
                    < SIZEOF_CONTROL_FILE_DATA,
                Err(ControlFileError::InvalidCrc { expected, was }) => buf.len()
                    >= SIZEOF_CONTROL_FILE_DATA && expected == crc32c_of(
                    buf@.take(OFFSETOF_CRC as int),
                ) && was == le32_at(buf@, OFFSETOF_CRC as int) && expected != was,
            },
    {
        if buf.len() < SIZEOF_CONTROL_FILE_DATA {
            return Err(ControlFileError::TooShort { len: buf.len() });
        }
        let controlfile = Self::from_bytes(buf);
        let covered = slice_subrange(buf, 0, OFFSETOF_CRC);
        assert(covered@ =~= buf@.take(OFFSETOF_CRC as int));
        let expected = crc32c::crc32c(covered);
        controlfile.check_crc(expected)
    }

    /// What `encode` gives is taken by `decode`, and read back as the data
    /// that were encoded, with their checksum set.
    pub proof fn lemma_encode_decode(self)
        ensures
            self.spec_encode().len() == SIZEOF_CONTROL_FILE_DATA,
            le32_at(self.spec_encode(), OFFSETOF_CRC as int) == crc32c_of(
                self.spec_encode().take(OFFSETOF_CRC as int),
            ),
            self.spec_with_crc(self.spec_crc()).decoded_from(self.spec_encode()),
    {
        let filled = self.spec_with_crc(self.spec_crc());
        let bytes = filled.spec_bytes();
        assert(bytes.subrange(0, bytes.len() as int) =~= bytes);
        filled.lemma_layout(bytes);
        assert(filled.spec_head() == self.spec_head());
    }
}

} // verus!
