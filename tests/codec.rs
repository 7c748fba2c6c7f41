use bitcask::codec::{checksum, OpType, OwnedEntry};
use bitcask::errors::DBError;
use bitcask::segment::LogFile;

fn put_entry(key: &str, value: &str, ts: u64) -> OwnedEntry {
    OwnedEntry {
        op_type: OpType::Put,
        key: key.as_bytes().to_vec(),
        value: Some(value.as_bytes().to_vec()),
        ts: Some(ts),
    }
}

#[test]
fn crc32c_check_value() {
    assert_eq!(0xE306_9283, checksum(b"123456789"));
    assert_eq!(0, checksum(b""));
}

#[test]
fn frame_layout_is_big_endian() {
    let e = OwnedEntry {
        op_type: OpType::Put,
        key: b"k".to_vec(),
        value: Some(b"vv".to_vec()),
        ts: Some(0x0102),
    };
    let f = e.encode_to_bytes();
    assert_eq!(24, f.len());
    assert_eq!(&[0, 0, 0, 0, 0, 0, 1, 2], &f[4..12]);
    assert_eq!(&[0, 0, 0, 1], &f[12..16]);
    assert_eq!(&[0, 0, 0, 2], &f[16..20]);
    assert_eq!(b'k', f[20]);
    assert_eq!(0, f[21]);
    assert_eq!(b"vv", &f[22..24]);
    let crc = checksum(&f[4..]);
    assert_eq!(&crc.to_be_bytes(), &f[0..4]);
}

#[test]
fn delete_frame_has_no_value() {
    let e = OwnedEntry { op_type: OpType::Del, key: b"name".to_vec(), value: None, ts: Some(7) };
    let f = e.encode_to_bytes();
    assert_eq!(25, f.len());
    assert_eq!(&[0, 0, 0, 0], &f[16..20]);
    assert_eq!(1, f[24]);
    assert_eq!(e, OwnedEntry::decode_from_bytes(&f, true).unwrap());
}

#[test]
fn round_trip_put_and_delete() {
    for verify in [true, false] {
        let e = put_entry("name", "guoxiang", 100000000000003);
        let f = e.encode_to_bytes();
        assert_eq!(e, OwnedEntry::decode_from_bytes(&f, verify).unwrap());
        let empty = put_entry("", "", u64::MAX);
        let f = empty.encode_to_bytes();
        assert_eq!(empty, OwnedEntry::decode_from_bytes(&f, verify).unwrap());
    }
}

#[test]
fn test_write_read() {
    // a segment whose file is kept in memory
    let mut file: Vec<u8> = Vec::new();
    let mut dbf = LogFile::new(1);
    let mut oe = put_entry("name", "guoxiang", 100000000000003);
    let data = oe.encode_to_bytes();
    file.extend_from_slice(&data);
    let handle = dbf.append(data.len() as u64);
    assert!(handle.length == data.len() as u64);
    let read = &file[handle.offset as usize..(handle.offset + handle.length) as usize];
    assert_eq!(OwnedEntry::decode_from_bytes(read, false).unwrap(), oe);

    let last_offset = dbf.get_offset();
    oe.op_type = OpType::Del;
    oe.key = Vec::from("name");
    oe.value = None;
    oe.ts = Some(100000000000004);
    let data = oe.encode_to_bytes();
    file.extend_from_slice(&data);
    let handle = dbf.append(data.len() as u64);
    assert!(handle.length == data.len() as u64);
    assert!(handle.offset == last_offset);
    let read = &file[handle.offset as usize..(handle.offset + handle.length) as usize];
    assert_eq!(OwnedEntry::decode_from_bytes(read, false).unwrap(), oe);
}

#[test]
fn flipped_byte_fails_checksum() {
    let e = put_entry("name", "guoxiang", 3);
    let f = e.encode_to_bytes();
    for i in 0..f.len() {
        let mut g = f.clone();
        g[i] ^= 0x10;
        assert_eq!(Err(DBError::ChecksumMismatch), OwnedEntry::decode_from_bytes(&g, true));
    }
    // without verification a flipped value byte goes unnoticed
    let mut g = f.clone();
    let last = g.len() - 1;
    g[last] ^= 0x01;
    let got = OwnedEntry::decode_from_bytes(&g, false).unwrap();
    assert_eq!(b"guoxianf".to_vec(), got.value.unwrap());
}

#[test]
fn malformed_frames_are_corrupt() {
    assert_eq!(Err(DBError::CorruptRecord), OwnedEntry::decode_from_bytes(&[0u8; 19], false));
    let e = put_entry("ab", "c", 1);
    let mut f = e.encode_to_bytes();
    // wrong total length
    f.push(9);
    assert_eq!(Err(DBError::CorruptRecord), OwnedEntry::decode_from_bytes(&f, false));
    f.pop();
    // unknown tag
    f[22] = 7;
    assert_eq!(Err(DBError::CorruptRecord), OwnedEntry::decode_from_bytes(&f, false));
    // a delete tag with a value
    f[22] = 1;
    assert_eq!(Err(DBError::CorruptRecord), OwnedEntry::decode_from_bytes(&f, false));
}
