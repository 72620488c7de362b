use pageserver::non_portable::{
    CheckPoint, ControlFileData, ControlFileError, FullTransactionId, DBState_DB_IN_PRODUCTION,
    OFFSETOF_CRC, PG_CONTROL_FILE_SIZE, SIZEOF_CHECKPOINT, SIZEOF_CONTROL_FILE_DATA,
};

fn sample() -> ControlFileData {
    let mut cfd = ControlFileData::default();
    cfd.system_identifier = 0x0102030405060708;
    cfd.pg_control_version = 1300;
    cfd.catalog_version_no = 202007201;
    cfd.state = DBState_DB_IN_PRODUCTION;
    cfd.__padding1 = [0xA1, 0xA2, 0xA3, 0xA4];
    cfd.time = -2;
    cfd.checkPoint = 0x169C348;
    cfd.checkPointCopy = CheckPoint {
        redo: 0x169C310,
        ThisTimeLineID: 1,
        PrevTimeLineID: 2,
        fullPageWrites: 1,
        __padding1: [1, 2, 3, 4, 5, 6, 7],
        nextXid: FullTransactionId { value: 0x1_0000_0200 },
        nextOid: 24576,
        nextMulti: 3,
        nextMultiOffset: 4,
        oldestXid: 5,
        oldestXidDB: 6,
        oldestMulti: 7,
        oldestMultiDB: 8,
        __padding4: [9, 9, 9, 9],
        time: 1_600_000_000,
        oldestCommitTsXid: 10,
        newestCommitTsXid: 11,
        oldestActiveXid: 12,
        __padding5: [13, 14, 15, 16],
    };
    cfd.unloggedLSN = 1000;
    cfd.minRecoveryPoint = 17;
    cfd.minRecoveryPointTLI = 18;
    cfd.backupStartPoint = 19;
    cfd.backupEndPoint = 20;
    cfd.backupEndRequired = 1;
    cfd.wal_level = 2;
    cfd.wal_log_hints = 1;
    cfd.MaxConnections = 100;
    cfd.max_worker_processes = 8;
    cfd.max_wal_senders = 10;
    cfd.max_prepared_xacts = 21;
    cfd.max_locks_per_xact = 64;
    cfd.track_commit_timestamp = 1;
    cfd.maxAlign = 8;
    cfd.floatFormat = 1234567.0f64.to_bits();
    cfd.blcksz = 8192;
    cfd.relseg_size = 131072;
    cfd.xlog_blcksz = 8192;
    cfd.xlog_seg_size = 16 * 1024 * 1024;
    cfd.nameDataLen = 64;
    cfd.indexMaxKeys = 32;
    cfd.toast_max_chunk_size = 1996;
    cfd.loblksize = 2048;
    cfd.float8ByVal = 1;
    cfd.data_checksum_version = 22;
    for (i, b) in cfd.mock_authentication_nonce.iter_mut().enumerate() {
        *b = 0x40 + i as u8;
    }
    cfd.crc = 0xDEADBEEF;
    cfd.__padding7 = [0xF1, 0xF2, 0xF3, 0xF4];
    cfd
}

#[test]
fn test_struct_compatibility() {
    // The data take as many bytes as the structure of the engine does.
    assert_eq!(ControlFileData::default().to_bytes().len(), 296);
    assert_eq!(SIZEOF_CONTROL_FILE_DATA, 296);

    // A spot check of the last field.
    let mut cfd = ControlFileData::default();
    cfd.crc = 0x12345678;
    let bytes = cfd.to_bytes();
    assert_eq!(&bytes[288..292], &[0x78, 0x56, 0x34, 0x12]);
    let mirror = ControlFileData::from_bytes(&bytes);
    assert_eq!(mirror.crc, 0x12345678);
}

#[test]
fn fields_stand_at_their_offsets() {
    let bytes = sample().to_bytes();
    assert_eq!(bytes.len(), 296);
    assert_eq!(&bytes[0..8], &0x0102030405060708u64.to_le_bytes());
    assert_eq!(&bytes[8..12], &1300u32.to_le_bytes());
    assert_eq!(&bytes[16..20], &6u32.to_le_bytes());
    assert_eq!(&bytes[20..24], &[0xA1, 0xA2, 0xA3, 0xA4]);
    assert_eq!(&bytes[24..32], &(-2i64).to_le_bytes());
    assert_eq!(&bytes[32..40], &0x169C348u64.to_le_bytes());
    // the checkpoint: 88 bytes from 40 on
    assert_eq!(SIZEOF_CHECKPOINT, 88);
    assert_eq!(&bytes[40..48], &0x169C310u64.to_le_bytes());
    assert_eq!(bytes[56], 1);
    assert_eq!(&bytes[57..64], &[1, 2, 3, 4, 5, 6, 7]);
    assert_eq!(&bytes[64..72], &0x1_0000_0200u64.to_le_bytes());
    assert_eq!(&bytes[72..76], &24576u32.to_le_bytes());
    assert_eq!(&bytes[104..112], &1_600_000_000i64.to_le_bytes());
    assert_eq!(&bytes[120..124], &12u32.to_le_bytes());
    assert_eq!(&bytes[124..128], &[13, 14, 15, 16]);
    assert_eq!(&bytes[128..136], &1000u64.to_le_bytes());
    assert_eq!(bytes[168], 1);
    assert_eq!(&bytes[172..176], &2u32.to_le_bytes());
    assert_eq!(&bytes[204..208], &8u32.to_le_bytes());
    assert_eq!(&bytes[208..216], &1234567.0f64.to_le_bytes());
    assert_eq!(&bytes[216..220], &8192u32.to_le_bytes());
    assert_eq!(&bytes[244..248], &2048u32.to_le_bytes());
    assert_eq!(bytes[248], 1);
    assert_eq!(&bytes[252..256], &22u32.to_le_bytes());
    assert_eq!(bytes[256], 0x40);
    assert_eq!(bytes[287], 0x5F);
    assert_eq!(OFFSETOF_CRC, 288);
    assert_eq!(&bytes[288..292], &0xDEADBEEFu32.to_le_bytes());
    assert_eq!(&bytes[292..296], &[0xF1, 0xF2, 0xF3, 0xF4]);
}

#[test]
fn encode_sets_the_checksum_of_what_stands_before_it() {
    let bytes = sample().encode();
    assert_eq!(bytes.len(), 296);
    let crc = crc32c::crc32c(&bytes[..288]);
    assert_eq!(&bytes[288..292], &crc.to_le_bytes());
    // All but the checksum is as in the plain bytes.
    let plain = sample().to_bytes();
    assert_eq!(&bytes[..288], &plain[..288]);
    assert_eq!(&bytes[292..], &plain[292..]);
    assert_ne!(crc, 0xDEADBEEF);
}

#[test]
fn checksum_is_crc32c() {
    // The check value of CRC-32C.
    assert_eq!(crc32c::crc32c(b"123456789"), 0xE3069283);
    let mut cfd = ControlFileData::default();
    cfd.__padding7 = [0; 4];
    let bytes = cfd.encode();
    assert_eq!(&bytes[288..292], &crc32c::crc32c(&[0u8; 288]).to_le_bytes());
}

#[test]
fn decode_reads_back_what_encode_wrote() {
    let bytes = sample().encode();
    let back = ControlFileData::decode(&bytes).unwrap();
    let mut expect = sample();
    expect.crc = crc32c::crc32c(&bytes[..288]);
    assert_eq!(back.to_bytes(), expect.to_bytes());
    assert_eq!(back.system_identifier, 0x0102030405060708);
    assert_eq!(back.time, -2);
    assert_eq!(back.checkPointCopy.time, 1_600_000_000);
    assert_eq!(back.checkPointCopy.nextXid, FullTransactionId { value: 0x1_0000_0200 });
    assert_eq!(back.checkPointCopy.__padding1, [1, 2, 3, 4, 5, 6, 7]);
    assert_eq!(f64::from_bits(back.floatFormat), 1234567.0);
    assert_eq!(back.mock_authentication_nonce[31], 0x5F);
    assert_eq!(back.xlog_seg_size, 16 * 1024 * 1024);
    // Encoding again changes nothing.
    assert_eq!(back.encode(), bytes);
}

#[test]
fn decode_takes_a_whole_control_file() {
    let mut file = sample().encode().into_vec();
    file.resize(PG_CONTROL_FILE_SIZE, 0);
    let back = ControlFileData::decode(&file).unwrap();
    assert_eq!(back.catalog_version_no, 202007201);
}

#[test]
fn decode_refuses_short_input() {
    let bytes = sample().encode();
    assert_eq!(ControlFileData::decode(&[]).err(), Some(ControlFileError::TooShort { len: 0 }));
    assert_eq!(
        ControlFileData::decode(&bytes[..295]).err(),
        Some(ControlFileError::TooShort { len: 295 })
    );
}

#[test]
fn decode_refuses_a_wrong_checksum() {
    let good = sample().encode().into_vec();
    let crc = crc32c::crc32c(&good[..288]);
    // A flipped bit in what the checksum covers.
    let mut bytes = good.clone();
    bytes[100] ^= 1;
    match ControlFileData::decode(&bytes) {
        Err(ControlFileError::InvalidCrc { expected, was }) => {
            assert_eq!(was, crc);
            assert_eq!(expected, crc32c::crc32c(&bytes[..288]));
        }
        other => panic!("unexpected {:?}", other),
    }
    // A flipped bit in the checksum.
    let mut bytes = good.clone();
    bytes[288] ^= 1;
    assert_eq!(
        ControlFileData::decode(&bytes).err(),
        Some(ControlFileError::InvalidCrc { expected: crc, was: crc ^ 1 })
    );
    // The padding behind the checksum is not covered.
    let mut bytes = good.clone();
    bytes[295] ^= 0xFF;
    assert!(ControlFileData::decode(&bytes).is_ok());
}

#[test]
fn check_crc_compares_with_the_stored_checksum() {
    let mut cfd = ControlFileData::default();
    cfd.crc = 7;
    assert_eq!(cfd.clone().check_crc(7).unwrap().crc, 7);
    assert_eq!(
        cfd.check_crc(8).err(),
        Some(ControlFileError::InvalidCrc { expected: 8, was: 7 })
    );
}

#[test]
fn with_crc_puts_the_checksum_in_its_place() {
    let bytes = sample().with_crc(0x01020304);
    assert_eq!(&bytes[288..292], &[4, 3, 2, 1]);
    assert_eq!(&bytes[..288], &sample().to_bytes()[..288]);
}

#[test]
fn checkpoint_bytes_round_trip() {
    let cp = sample().checkPointCopy;
    let mut out = vec![0xEEu8; 3];
    cp.append_to(&mut out);
    assert_eq!(out.len(), 3 + 88);
    let back = CheckPoint::decode_at(&out, 3);
    assert_eq!(back.redo, cp.redo);
    assert_eq!(back.fullPageWrites, 1);
    assert_eq!(back.nextXid, cp.nextXid);
    assert_eq!(back.time, cp.time);
    assert_eq!(back.__padding5, [13, 14, 15, 16]);
    let mut again = Vec::new();
    back.append_to(&mut again);
    assert_eq!(&again[..], &out[3..]);
}
