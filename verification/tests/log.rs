use octopus_log::crc::crc32c;
use octopus_log::row::{LittleEndianReader, LogError, RaftInner, Row, RowInfo, ShardType, Tag, TagType};
use octopus_log::xlog::{FlushStatus, XlogReader, XlogWriter};
use octopus_log::xlog_dir::XLogDir;

fn fresh_row(tag: u16, scn: i64, data: &[u8]) -> Row {
    Row {
        header_crc32c: 0,
        lsn: 0,
        scn,
        tag,
        shard_id: 0,
        aux: [0; 6],
        tm: 0,
        len: data.len() as u32,
        data_crc32c: 0,
        data: data.to_vec(),
    }
}

fn fresh_wal_writer() -> (XLogDir, XlogWriter) {
    let dir = XLogDir::new_waldir(b"testdata".to_vec());
    let mut w = XlogWriter::new(0x8000, 1, 0);
    w.write_header(&dir, b"1.0", &Vec::new());
    (dir, w)
}

#[test]
fn test_crc32() {
    let buf = [0x68, 0x65, 0x6c, 0x6c, 0x6f];
    assert_eq!(crc32c(&buf), 0xdf03cd79);
}

#[test]
fn test_row_size() {
    // the serialized header is exactly 46 bytes before the payload
    let row = fresh_row(3, 0, b"hello");
    assert_eq!(row.write().len(), 46 + 5);
}

#[test]
fn write_one_row_file_image() {
    let (_dir, mut w) = fresh_wal_writer();
    let mut row = fresh_row(3, 0, b"hello");
    w.append_row(&mut row, 0).unwrap();
    let (lsn, _sync) = w.confirm_write(FlushStatus::Flushed);
    assert_eq!(lsn, 1);
    w.write_eof_marker();
    let bytes = w.take_pending();

    let header_text = b"XLOG\n0.12\nCreated-by: octopus\nOctopus-version: 1.0\n\n";
    assert_eq!(&bytes[..header_text.len()], &header_text[..]);
    let p = header_text.len();
    // row marker, little endian
    assert_eq!(&bytes[p..p + 4], &[0xed, 0xab, 0x0b, 0xba]);
    // the stamped row: lsn 1, scn defaulted to the lsn, wal category bits
    assert_eq!(row.lsn, 1);
    assert_eq!(row.scn, 1);
    assert_eq!(row.tag, 0x8003);
    assert_eq!(row.data_crc32c, 0xdf03cd79);
    let hdr = &bytes[p + 4..p + 50];
    assert_eq!(&hdr[4..12], &1i64.to_le_bytes());
    assert_eq!(&hdr[12..20], &1i64.to_le_bytes());
    assert_eq!(&hdr[20..22], &0x8003u16.to_le_bytes());
    assert_eq!(&hdr[38..42], &5u32.to_le_bytes());
    assert_eq!(&hdr[42..46], &0xdf03cd79u32.to_le_bytes());
    assert_eq!(&bytes[p + 50..p + 55], b"hello");
    // eof marker on close
    assert_eq!(&bytes[p + 55..p + 59], &[0x1e, 0xab, 0xad, 0x10]);
}

#[test]
fn roundtrip_rows_and_monotonic_lsn() {
    let (_dir, mut w) = fresh_wal_writer();
    let payloads: [&[u8]; 3] = [b"alpha", b"bee", b""];
    let tags: [u16; 3] = [3, 7, 0x4002];
    let scns: [i64; 3] = [0, 42, 0];
    let mut appended: Vec<(i64, i64, u16, Vec<u8>)> = Vec::new();
    for i in 0..3 {
        let mut row = fresh_row(tags[i], scns[i], payloads[i]);
        w.append_row(&mut row, 7).unwrap();
        appended.push((row.lsn, row.scn, row.tag, row.data.clone()));
    }
    let (lsn, _) = w.confirm_write(FlushStatus::Flushed);
    assert_eq!(lsn, 3);
    w.write_eof_marker();
    let bytes = w.take_pending();

    // dense ascending LSNs, no gaps
    assert_eq!(appended[0].0, 1);
    assert_eq!(appended[1].0, 2);
    assert_eq!(appended[2].0, 3);
    // a zero SCN defaults to the row's LSN; a nonzero one is kept
    assert_eq!(appended[0].1, 1);
    assert_eq!(appended[1].1, 42);
    // category stamping: tag 3 had no category bits, 0x4002 kept its own
    assert_eq!(appended[0].2, 0x8003);
    assert_eq!(appended[1].2, 0x8007);
    assert_eq!(appended[2].2, 0x4002);

    let (mut rdr, headers) = XlogReader::open(bytes).unwrap();
    assert_eq!(headers.len(), 2);
    assert_eq!(headers[0], b"Created-by: octopus\n".to_vec());
    assert_eq!(headers[1], b"Octopus-version: 1.0\n".to_vec());
    for i in 0..3 {
        let row = rdr.read_row().unwrap().unwrap();
        assert_eq!(row.lsn, appended[i].0);
        assert_eq!(row.scn, appended[i].1);
        assert_eq!(row.tag, appended[i].2);
        assert_eq!(row.data, appended[i].3);
    }
    // clean end of stream, and once more after it
    assert!(rdr.read_row().unwrap().is_none());
    assert!(rdr.eof);
    assert!(rdr.read_row().unwrap().is_none());
    assert!(rdr.eof);
}

#[test]
fn torn_tail_truncation() {
    let (_dir, mut w) = fresh_wal_writer();
    let mut row1 = fresh_row(3, 0, b"first");
    let mut row2 = fresh_row(3, 0, b"second");
    w.append_row(&mut row1, 0).unwrap();
    w.append_row(&mut row2, 0).unwrap();
    w.confirm_write(FlushStatus::Flushed);
    let bytes = w.take_pending();
    let header_len = b"XLOG\n0.12\nCreated-by: octopus\nOctopus-version: 1.0\n\n".len();
    let row1_end = header_len + 4 + 46 + 5;

    // cut at every offset inside the second row: only the first row survives
    for cut in row1_end..bytes.len() {
        let (mut rdr, _) = XlogReader::open(bytes[..cut].to_vec()).unwrap();
        let got = rdr.read_row().unwrap().unwrap();
        assert_eq!(got.data, b"first".to_vec());
        let next = rdr.read_row();
        match next {
            Ok(None) => assert_eq!(cut, row1_end),
            Ok(Some(_)) => panic!("no second row may appear under a cut"),
            Err(_) => assert!(cut > row1_end),
        }
    }
}

#[test]
fn truncate_inside_headers_and_recover() {
    // scenario: cut the file 40 bytes in (inside the prelude), reopening fails;
    // the writer, told its flush failed at the confirmed offset, poisons
    // itself, recovers by truncation, and hands out LSN 1 again
    let (_dir, mut w) = fresh_wal_writer();
    let mut row = fresh_row(3, 0, b"hello");
    w.append_row(&mut row, 0).unwrap();
    let pending = w.take_pending();
    assert!(XlogReader::open(pending[..40].to_vec()).is_err());

    // nothing of the row reached the disk: keep zero wet rows
    let (lsn, _) = w.confirm_write(FlushStatus::FlushFailed(0));
    assert_eq!(lsn, 0);
    let mut row2 = fresh_row(3, 0, b"again");
    assert_eq!(w.append_row(&mut row2, 0), Err(LogError::Poisoned));
    let off = w.recover_truncate();
    assert_eq!(off, 0);
    let mut row3 = fresh_row(3, 0, b"again");
    w.append_row(&mut row3, 0).unwrap();
    assert_eq!(row3.lsn, 1);
}

#[test]
fn confirm_failure_keeps_flushed_prefix() {
    let (_dir, mut w) = fresh_wal_writer();
    let mut row1 = fresh_row(3, 0, b"aaaa");
    let mut row2 = fresh_row(3, 0, b"bbbb");
    w.append_row(&mut row1, 0).unwrap();
    w.append_row(&mut row2, 0).unwrap();
    // the file grew to hold the first row only (4 + 46 + 4 bytes)
    let (lsn, _) = w.confirm_write(FlushStatus::FlushFailed(54));
    assert_eq!(lsn, 1);
    assert_eq!(w.offset, 54);
    assert!(w.truncate_before_write);
}

#[test]
fn reader_error_variants() {
    let (_dir, mut w) = fresh_wal_writer();
    let mut row = fresh_row(3, 0, b"hello");
    w.append_row(&mut row, 0).unwrap();
    w.confirm_write(FlushStatus::Flushed);
    let good = w.take_pending();
    let header_len = b"XLOG\n0.12\nCreated-by: octopus\nOctopus-version: 1.0\n\n".len();

    // bad filetype
    let mut bad = good.clone();
    bad[0] = b'Y';
    assert_eq!(XlogReader::open(bad).unwrap_err(), LogError::InvalidFiletype);
    // bad version
    let mut bad = good.clone();
    bad[7] = b'9';
    assert_eq!(XlogReader::open(bad).unwrap_err(), LogError::InvalidVersion);
    // empty file
    assert_eq!(XlogReader::open(Vec::new()).unwrap_err(), LogError::UnexpectedEof);
    // corrupt marker
    let mut bad = good.clone();
    bad[header_len] = 0;
    let (mut rdr, _) = XlogReader::open(bad).unwrap();
    assert!(matches!(rdr.read_row().unwrap_err(), LogError::InvalidMarker(_)));
    // corrupt header byte
    let mut bad = good.clone();
    bad[header_len + 10] ^= 0xff;
    let (mut rdr, _) = XlogReader::open(bad).unwrap();
    assert!(matches!(rdr.read_row().unwrap_err(), LogError::HeaderCrcMismatch(_, _)));
    // corrupt payload byte
    let mut bad = good.clone();
    let n = bad.len();
    bad[n - 1] ^= 0xff;
    let (mut rdr, _) = XlogReader::open(bad).unwrap();
    assert!(matches!(rdr.read_row().unwrap_err(), LogError::DataCrcMismatch(_, _)));
}

#[test]
fn update_crc_then_read_roundtrip() {
    let mut row = fresh_row(0x8003, 5, b"payload");
    row.lsn = 9;
    row.update_crc();
    let bytes = row.write();
    let (back, end) = Row::read(&bytes, 0).unwrap();
    assert_eq!(end, bytes.len());
    assert_eq!(back.lsn, 9);
    assert_eq!(back.scn, 5);
    assert_eq!(back.tag, 0x8003);
    assert_eq!(back.data, b"payload".to_vec());
    assert_eq!(back.header_crc32c, row.header_crc32c);
    assert_eq!(back.data_crc32c, row.data_crc32c);
}

#[test]
fn row_read_len_limit() {
    let mut row = fresh_row(3, 0, &[0u8; 100]);
    row.len = 5000;
    row.update_crc();
    let mut bytes = row.write();
    bytes.extend_from_slice(&[0u8; 5000]);
    assert_eq!(Row::read(&bytes, 0).unwrap_err(), LogError::LenExceedsLimit);
}

#[test]
fn largest_payload_roundtrip() {
    // one byte under the parser's limit
    let payload = vec![0x5au8; 2047];
    let (_dir, mut w) = fresh_wal_writer();
    let mut row = fresh_row(3, 0, &payload);
    w.append_row(&mut row, 0).unwrap();
    w.confirm_write(FlushStatus::Flushed);
    w.write_eof_marker();
    let (mut rdr, _) = XlogReader::open(w.take_pending()).unwrap();
    let back = rdr.read_row().unwrap().unwrap();
    assert_eq!(back.len, 2047);
    assert_eq!(back.data, payload);
    assert!(rdr.read_row().unwrap().is_none());
}

#[test]
fn empty_payload_roundtrip() {
    let (_dir, mut w) = fresh_wal_writer();
    let mut row = fresh_row(7, 0, b"");
    w.append_row(&mut row, 0).unwrap();
    w.confirm_write(FlushStatus::Flushed);
    let (mut rdr, _) = XlogReader::open(w.take_pending()).unwrap();
    let back = rdr.read_row().unwrap().unwrap();
    assert_eq!(back.len, 0);
    assert!(back.data.is_empty());
}

#[test]
fn snap_file_roundtrip() {
    let dir = XLogDir::new_snapdir(b"testdata".to_vec());
    let mut w = XlogWriter::new(0x4000, 1, 0);
    w.write_header(&dir, b"1.0", &vec![b"SCN-1: 600\n".to_vec()]);
    let mut row = fresh_row(2, 0, b"snapshot");
    w.append_row(&mut row, 0).unwrap();
    assert_eq!(row.tag, 0x4002);
    w.confirm_write(FlushStatus::Flushed);
    let (mut rdr, headers) = XlogReader::open(w.take_pending()).unwrap();
    assert_eq!(headers.len(), 3);
    assert_eq!(headers[2], b"SCN-1: 600\n".to_vec());
    assert_eq!(octopus_log::xlog_dir::scn_of_headers(&headers, 1), Some(600));
    let back = rdr.read_row().unwrap().unwrap();
    assert_eq!(back.tag, 0x4002);
}

#[test]
fn fadvise_window_policy() {
    let fadvise_window = octopus_log::xlog::fadvise_window;
    assert_eq!(fadvise_window(0), None);
    assert_eq!(fadvise_window(135166), None);
    // keep the trailing 128 KiB plus the tail modulo the page size
    let end: u64 = 1_000_000;
    assert_eq!(fadvise_window(end), Some(end - (131072 + end % 4096)));
}

#[test]
fn tag_taxonomy() {
    assert_eq!(Tag::new(3), Tag::WalData);
    assert_eq!(Tag::new(0x8003), Tag::WalData);
    assert_eq!(Tag::new(14), Tag::Tlv);
    assert_eq!(Tag::new(20), Tag::SysTag(20));
    assert_eq!(Tag::new(64), Tag::UserTag(2));
    assert_eq!(Tag::WalData.as_u16(), 3);
    assert_eq!(Tag::SysTag(20).as_u16(), 20);
    assert_eq!(TagType::new(0x8003), TagType::WAL);
    assert_eq!(TagType::new(0x4001), TagType::SNAP);
    assert_eq!(TagType::new(0xc001), TagType::SYS);
    assert_eq!(TagType::new(3), TagType::INVALID);
    assert_eq!(ShardType::new(1), Ok(ShardType::RAFT));
    assert_eq!(ShardType::new(9), Err(LogError::InvalidShardType(9)));
}

#[test]
fn set_tag_category_stamps_high_bits() {
    let mut row = fresh_row(0x4003, 0, b"");
    row.set_tag_category(TagType::SYS);
    assert_eq!(row.tag, 0xc003);
    assert_eq!(row.tag_type(), TagType::SYS);
    assert_eq!(row.tag(), Tag::WalData);
}

#[test]
fn little_endian_reader() {
    let mut r = LittleEndianReader::new(vec![1, 0, 2, 0, 0, 0, b'a', b'b', 0, b'x']);
    assert_eq!(r.read_u16(), 1);
    assert_eq!(r.read_u32(), 2);
    let s = r.read_str(4);
    assert_eq!(s, b"ab".to_vec());
    let (buf, pos) = r.into_cursor();
    assert_eq!(pos, 10);
    assert_eq!(buf.len(), 10);
}

#[test]
fn parse_row_info_variants() {
    // run_crc with leading scn: 8 bytes scn, crc, ignored word
    let mut data = Vec::new();
    data.extend_from_slice(&77i64.to_le_bytes());
    data.extend_from_slice(&0xdeadbeefu32.to_le_bytes());
    data.extend_from_slice(&0u32.to_le_bytes());
    let info = RowInfo::RunCrc { scn: 77, crc_log: 0xdeadbeef };
    assert_eq!(octopus_log::row::parse_row_info(6, 0, &data).unwrap(), info);

    // snap_initial, three words
    let mut data = Vec::new();
    data.extend_from_slice(&5u32.to_le_bytes());
    data.extend_from_slice(&1u32.to_le_bytes());
    data.extend_from_slice(&2u32.to_le_bytes());
    assert_eq!(
        octopus_log::row::parse_row_info(1, 0, &data).unwrap(),
        RowInfo::SnapInitial { count: 5, crc_log: 1, crc_mod: 2 }
    );

    // raft vote
    let mut data = Vec::new();
    data.extend_from_slice(&7u16.to_le_bytes());
    data.extend_from_slice(&100u64.to_le_bytes());
    data.push(3);
    assert_eq!(
        octopus_log::row::parse_row_info(10, 0, &data).unwrap(),
        RowInfo::RaftVote { flags: 7, term: 100, peer_id: 3 }
    );

    // raft append with a run_crc inside
    let mut data = Vec::new();
    data.extend_from_slice(&1u16.to_le_bytes());
    data.extend_from_slice(&9u64.to_le_bytes());
    data.extend_from_slice(&6u16.to_le_bytes());
    data.extend_from_slice(&55u64.to_le_bytes());
    data.extend_from_slice(&8u32.to_le_bytes());
    data.extend_from_slice(&0u32.to_le_bytes());
    assert_eq!(
        octopus_log::row::parse_row_info(8, 0, &data).unwrap(),
        RowInfo::Raft { flags: 1, term: 9, inner: RaftInner::RunCrc { scn: 55, crc_log: 8 } }
    );

    // shard create: ver 1, raft type, names, one aux byte
    let mut data = vec![1u8, 1];
    data.extend_from_slice(&1000u32.to_le_bytes());
    let mut name = [0u8; 16];
    name[..3].copy_from_slice(b"box");
    data.extend_from_slice(&name);
    let mut master = [0u8; 16];
    master[..2].copy_from_slice(b"m1");
    data.extend_from_slice(&master);
    let mut peer = [0u8; 16];
    peer[..2].copy_from_slice(b"p1");
    data.extend_from_slice(&peer);
    data.extend_from_slice(&[0u8; 48]);
    data.extend_from_slice(&1u16.to_le_bytes());
    data.push(0xaa);
    match octopus_log::row::parse_row_info(11, 0, &data).unwrap() {
        RowInfo::Shard { shard_type, estimated_row_count, mod_name, master, replicas, aux } => {
            assert_eq!(shard_type, ShardType::RAFT);
            assert_eq!(estimated_row_count, 1000);
            assert_eq!(mod_name, b"box".to_vec());
            assert_eq!(master, b"m1".to_vec());
            assert_eq!(replicas[0], b"p1".to_vec());
            assert_eq!(replicas[1], Vec::<u8>::new());
            assert_eq!(aux, vec![0xaa]);
        },
        other => panic!("unexpected info {:?}", other),
    }

    // bad shard version and type
    assert_eq!(
        octopus_log::row::parse_row_info(11, 0, &[2u8, 0]).unwrap_err(),
        LogError::InvalidRecordVersion(2)
    );
    assert_eq!(
        octopus_log::row::parse_row_info(11, 0, &[1u8, 7]).unwrap_err(),
        LogError::InvalidShardType(7)
    );

    // opaque kinds
    assert_eq!(octopus_log::row::parse_row_info(3, 0, b"xx").unwrap(), RowInfo::Data);
    assert_eq!(octopus_log::row::parse_row_info(7, 0, b"").unwrap(), RowInfo::Nothing);
}
