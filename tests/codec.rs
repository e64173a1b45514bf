use btrfs_backup::btrfs::{
    BtrfsCommand, BtrfsCommandBuf, BtrfsCommandType, BtrfsHeader, BtrfsParseError, ProtocolReason,
    ReadErrorKind,
};
use btrfs_backup::bytes::ByteReader;
use btrfs_backup::crc32::crc32c;
use btrfs_backup::payload::{BtrfsSnapshot, BtrfsSubvol};
use btrfs_backup::stream::{get_first_command, BtrfsCommandIter};
use uuid::Uuid;

const BTRFS_SAMPLE_SUBVOL: &[u8] = b"btrfs-stream\x00\x01\x00\x00\x00:\x00\x00\x00\x01\x00\x9bd}\xab\x0f\x00\x16\x00root_jessie_2014-07-21\x01\x00\x10\x00\xa37K@\xc0\x8e\xb5E\x93\xf7\x83a\xe8\xb45\xb8\x02\x00\x08\x00\xc6\x95\x00\x00\x00\x00\x00\x00\x1c\x00\x00\x00\x13\x00\x027-\x8c\x0f\x00\x00\x00\x06\x00\x08\x00\x00\x00\x00\x00\x00\x00\x00\x00\x07\x00\x08\x00\x00\x00\x00\x00\x00\x00\x00\x00\x10\x00\x00\x00\x12";

const BTRFS_SAMPLE_SNAPSHOT: &[u8] = b"btrfs-stream\x00\x01\x00\x00\x00Z\x00\x00\x00\x02\x00\xd78\x04+\x0f\x00\x16\x00root_jessie_2014-08-25\x01\x00\x10\x00\x19\xf1vb=y\x94O\xb4\x0fm\xcc\x1dy@\xd1\x02\x00\x08\x00?)\x00\x00\x00\x00\x00\x00\x14\x00\x10\x00\x8a\xcf\\z3\x0ciD\xa7\x13\xa8\xfb\xa5v\x15x\x15\x00\x08\x00\xd2\x18\x00\x00\x00\x00\x00\x004\x00\x00\x00\x14\x00\r\xe5\xc0%\x0f";

fn uuid_value(s: &str) -> u128 {
    Uuid::parse_str(s).unwrap().as_u128()
}

#[test]
fn test_btrfs_cmd_buf() {
    let mut reader = ByteReader::new(BTRFS_SAMPLE_SUBVOL);
    let header = match BtrfsHeader::parse(&mut reader) {
        Ok(header) => header,
        Err(err) => panic!("err: {:?}", err),
    };
    assert_eq!(header.version, 1);
    let command_buf = match BtrfsCommandBuf::read(&mut reader) {
        Ok(command_buf) => command_buf,
        Err(err) => panic!("err: {:?}", err),
    };
    assert_eq!(command_buf.get_crc32(), command_buf.calculate_crc32());
    assert_eq!(command_buf.get_kind(), Some(BtrfsCommandType::BTRFS_SEND_C_SUBVOL));
}

#[test]
fn test_subvol_metadata_extract() {
    let mut reader = ByteReader::new(BTRFS_SAMPLE_SUBVOL);
    let header = match BtrfsHeader::parse(&mut reader) {
        Ok(header) => header,
        Err(err) => panic!("err: {:?}", err),
    };
    assert_eq!(header.version, 1);

    let _uuid = Uuid::parse_str("a3374b40-c08e-b545-93f7-8361e8b435b8").ok().unwrap();

    let command = match BtrfsCommand::parse(&mut reader) {
        Ok(command) => command,
        Err(_) => unreachable!(),
    };
    assert_eq!(command.kind, BtrfsCommandType::BTRFS_SEND_C_SUBVOL);
    let _subvol = match BtrfsSubvol::load(command.data.as_slice()) {
        Ok(subvol) => subvol,
        Err(err) => panic!("err: {:?}", err),
    };
}

#[test]
fn test_snapshot_metadata_extract() {
    let mut reader = ByteReader::new(BTRFS_SAMPLE_SNAPSHOT);
    let header = match BtrfsHeader::parse(&mut reader) {
        Ok(header) => header,
        Err(err) => panic!("err: {:?}", err),
    };
    assert_eq!(header.version, 1);

    let _uuid = Uuid::parse_str("19f17662-3d79-944f-b40f-6dcc1d7940d1").ok().unwrap();
    let _clone_uuid = Uuid::parse_str("8acf5c7a-330c-6944-a713-a8fba5761578").ok().unwrap();

    match BtrfsCommand::parse(&mut reader) {
        Ok(command) => {
            assert_eq!(command.kind, BtrfsCommandType::BTRFS_SEND_C_SNAPSHOT);
        }
        Err(_) => unreachable!(),
    };
}

#[test]
fn decode_sample_subvol() {
    let mut reader = ByteReader::new(BTRFS_SAMPLE_SUBVOL);
    BtrfsHeader::parse(&mut reader).unwrap();
    let buf = BtrfsCommandBuf::read(&mut reader).unwrap();
    assert_eq!(buf.0.len(), 10 + 0x3A);
    assert!(buf.validate_crc32());
    let command = buf.parse().unwrap();
    assert_eq!(command.len, 0x3A);
    assert!(command.validate_crc32());
    let subvol = BtrfsSubvol::load(command.data.as_slice()).unwrap();
    assert_eq!(subvol.name, b"root_jessie_2014-07-21".to_vec());
    assert_eq!(subvol.uuid, uuid_value("a3374b40-c08e-b545-93f7-8361e8b435b8"));
    assert_eq!(subvol.ctransid, 38342);
}

#[test]
fn decode_sample_snapshot() {
    let mut reader = ByteReader::new(BTRFS_SAMPLE_SNAPSHOT);
    let command = get_first_command(&mut reader).unwrap();
    assert_eq!(command.kind, BtrfsCommandType::BTRFS_SEND_C_SNAPSHOT);
    assert!(command.validate_crc32());
    let snap = BtrfsSnapshot::load(command.data.as_slice()).unwrap();
    assert_eq!(snap.name, b"root_jessie_2014-08-25".to_vec());
    assert_eq!(snap.uuid, uuid_value("19f17662-3d79-944f-b40f-6dcc1d7940d1"));
    assert_eq!(snap.ctransid, 10559);
    assert_eq!(snap.clone_uuid, uuid_value("8acf5c7a-330c-6944-a713-a8fba5761578"));
    assert_eq!(snap.clone_ctransid, 6354);
}

#[test]
fn crc32c_check_value() {
    assert_eq!(crc32c(0, b"123456789"), 0x58E3_FA20);
    assert_eq!(crc32c(0, b""), 0);
    let split = crc32c(crc32c(0, b"1234"), b"56789");
    assert_eq!(split, 0x58E3_FA20);
    // Seeded with all ones and complemented, the register gives the
    // standard CRC-32C check value.
    assert_eq!(!crc32c(0xFFFF_FFFF, b"123456789"), 0xE306_9283);
}

#[test]
fn crc_is_over_zeroed_field() {
    let command = BtrfsCommand::from_kind(BtrfsCommandType::BTRFS_SEND_C_WRITE, b"payload".to_vec());
    let mut bytes = command.serialize();
    let buf = BtrfsCommandBuf(bytes.clone());
    assert_eq!(buf.calculate_crc32(), command.calculate_crc32());
    assert_eq!(buf.get_crc32(), command.crc32);
    // A different stored CRC leaves the computed one unchanged.
    bytes[6] ^= 0xff;
    let tampered = BtrfsCommandBuf(bytes);
    assert_eq!(tampered.calculate_crc32(), command.calculate_crc32());
    assert!(!tampered.validate_crc32());
    let mut manual = Vec::new();
    manual.extend_from_slice(&7u32.to_le_bytes());
    manual.extend_from_slice(&15u16.to_le_bytes());
    manual.extend_from_slice(&[0, 0, 0, 0]);
    manual.extend_from_slice(b"payload");
    assert_eq!(crc32c(0, &manual), command.crc32);
}

#[test]
fn command_round_trip() {
    let command = BtrfsCommand::from_kind(BtrfsCommandType::BTRFS_SEND_C_MKFILE, b"some/file".to_vec());
    let bytes = command.serialize();
    assert_eq!(bytes.len(), 10 + 9);
    let mut reader = ByteReader::new(&bytes);
    let back = BtrfsCommand::parse(&mut reader).unwrap();
    assert_eq!(back.len, command.len);
    assert_eq!(back.kind, command.kind);
    assert_eq!(back.crc32, command.crc32);
    assert_eq!(back.data, command.data);
    assert_eq!(reader.len(), 0);
    assert_eq!(back.serialize(), bytes);
}

#[test]
fn sample_frame_reserializes() {
    let mut reader = ByteReader::new(BTRFS_SAMPLE_SNAPSHOT);
    BtrfsHeader::parse(&mut reader).unwrap();
    let buf = BtrfsCommandBuf::read(&mut reader).unwrap();
    let command = buf.parse().unwrap();
    assert_eq!(command.serialize(), buf.0);
}

#[test]
fn header_round_trip() {
    let header = BtrfsHeader { version: 1 };
    let bytes = header.serialize();
    assert_eq!(bytes.len(), 17);
    assert_eq!(&bytes[..13], b"btrfs-stream\x00");
    assert_eq!(BtrfsHeader::load(&bytes).unwrap().version, 1);
}

#[test]
fn header_invalid_magic() {
    let mut bytes = BtrfsHeader { version: 1 }.serialize();
    bytes[0] = b'B';
    match BtrfsHeader::load(&bytes) {
        Err(BtrfsParseError::ProtocolError(ProtocolReason::InvalidMagic)) => {}
        other => panic!("unexpected: {:?}", other.map(|h| h.version)),
    }
}

#[test]
fn header_invalid_magic_takes_magic_only() {
    let mut bytes = BtrfsHeader { version: 1 }.serialize();
    bytes[12] = b'!';
    bytes.push(0xEE);
    let mut reader = ByteReader::new(&bytes);
    let err = BtrfsHeader::parse(&mut reader).err().unwrap();
    assert!(matches!(err, BtrfsParseError::ProtocolError(ProtocolReason::InvalidMagic)));
    assert_eq!(reader.peek(), &[1, 0, 0, 0, 0xEE]);
    let mut short = ByteReader::new(&bytes[..10]);
    assert!(BtrfsParseError::is_eof(&BtrfsHeader::parse(&mut short).err().unwrap()));
    assert_eq!(short.len(), 10);
}

#[test]
fn header_invalid_version() {
    let bytes = BtrfsHeader { version: 2 }.serialize();
    assert!(matches!(BtrfsHeader::load(&bytes), Err(BtrfsParseError::InvalidVersion)));
    let mut reader = ByteReader::new(&bytes);
    assert!(BtrfsHeader::parse(&mut reader).is_err());
    assert_eq!(reader.len(), 0);
}

#[test]
fn header_short_is_eof() {
    let bytes = BtrfsHeader { version: 1 }.serialize();
    let err = BtrfsHeader::load(&bytes[..15]).err().unwrap();
    assert!(BtrfsParseError::is_eof(&err));
}

fn tlv(tag: u16, value: &[u8]) -> Vec<u8> {
    let mut out = Vec::new();
    out.extend_from_slice(&tag.to_le_bytes());
    out.extend_from_slice(&(value.len() as u16).to_le_bytes());
    out.extend_from_slice(value);
    out
}

#[test]
fn subvol_tlv_order_matters() {
    let uuid = 0x0102_0304_0506_0708_090a_0b0c_0d0e_0f10u128.to_be_bytes();
    let name = tlv(15, b"root");
    let id = tlv(1, &uuid);
    let transid = tlv(2, &7u64.to_le_bytes());
    let reordered = [id.clone(), name.clone(), transid.clone()].concat();
    match BtrfsSubvol::load(&reordered) {
        Err(BtrfsParseError::ProtocolError(ProtocolReason::UnexpectedTag(1))) => {}
        _ => panic!("expected the UUID attribute to be named"),
    }
    let swapped = [name.clone(), transid.clone(), id.clone()].concat();
    match BtrfsSubvol::load(&swapped) {
        Err(BtrfsParseError::ProtocolError(ProtocolReason::UnexpectedTag(2))) => {}
        _ => panic!("expected the transid attribute to be named"),
    }
    let canonical = [name, id, transid].concat();
    let subvol = BtrfsSubvol::load(&canonical).unwrap();
    assert_eq!(subvol.name, b"root".to_vec());
    assert_eq!(subvol.uuid, 0x0102_0304_0506_0708_090a_0b0c_0d0e_0f10u128);
    assert_eq!(subvol.ctransid, 7);
}

#[test]
fn subvol_bad_uuid_length() {
    let payload = [tlv(15, b"root"), tlv(1, &[1, 2, 3]), tlv(2, &7u64.to_le_bytes())].concat();
    match BtrfsSubvol::load(&payload) {
        Err(BtrfsParseError::ProtocolError(ProtocolReason::BadLength { tag: 1, len: 3 })) => {}
        _ => panic!("expected a bad length"),
    }
}

#[test]
fn subvol_payload_cut_short() {
    let payload = [tlv(15, b"root"), tlv(1, &[0u8; 16])].concat();
    let err = BtrfsSubvol::load(&payload).err().unwrap();
    assert!(BtrfsParseError::is_eof(&err));
}

#[test]
fn subvol_encap_round_trip() {
    let subvol = BtrfsSubvol { name: b"home".to_vec(), uuid: 0xdead_beef, ctransid: 99 };
    let command = subvol.encap();
    assert_eq!(command.kind, BtrfsCommandType::BTRFS_SEND_C_SUBVOL);
    assert_eq!(command.len as usize, command.data.len());
    assert!(command.validate_crc32());
    let back = BtrfsSubvol::load(&command.data).unwrap();
    assert_eq!(back.name, b"home".to_vec());
    assert_eq!(back.uuid, 0xdead_beef);
    assert_eq!(back.ctransid, 99);
}

#[test]
fn snapshot_encap_round_trip() {
    let snap = BtrfsSnapshot { name: b"snap".to_vec(), uuid: 5, ctransid: 6, clone_uuid: 7, clone_ctransid: 8 };
    let command = snap.encap();
    assert_eq!(command.kind, BtrfsCommandType::BTRFS_SEND_C_SNAPSHOT);
    let mut reader = ByteReader::new(&command.data);
    let back = BtrfsSnapshot::parse(&mut reader).unwrap();
    assert_eq!(reader.len(), 0);
    assert_eq!(back.name, b"snap".to_vec());
    assert_eq!((back.uuid, back.ctransid, back.clone_uuid, back.clone_ctransid), (5, 6, 7, 8));
}

#[test]
fn frame_errors() {
    let mut empty = ByteReader::new(&[]);
    let err = BtrfsCommandBuf::read(&mut empty).err().unwrap();
    assert!(matches!(err, BtrfsParseError::ReadError(ReadErrorKind::EndOfFile)));
    let command = BtrfsCommand::from_kind(BtrfsCommandType::BTRFS_SEND_C_WRITE, vec![1, 2, 3]);
    let bytes = command.serialize();
    let mut short = ByteReader::new(&bytes[..bytes.len() - 1]);
    let err = BtrfsCommandBuf::read(&mut short).err().unwrap();
    assert!(matches!(err, BtrfsParseError::ProtocolError(ProtocolReason::TruncatedFrame)));
    assert_eq!(short.len(), bytes.len() - 1);
    let mut unknown = bytes.clone();
    unknown[4] = 99;
    let mut reader = ByteReader::new(&unknown);
    let err = BtrfsCommand::parse(&mut reader).err().unwrap();
    assert!(matches!(err, BtrfsParseError::ProtocolError(ProtocolReason::UnknownCommand(99))));
    let raw = BtrfsCommandBuf(unknown);
    assert_eq!(raw.get_kind(), None);
}

#[test]
fn iterator_stops_after_end() {
    let mut stream = BtrfsHeader { version: 1 }.serialize();
    stream.extend(BtrfsCommand::from_kind(BtrfsCommandType::BTRFS_SEND_C_MKDIR, b"d".to_vec()).serialize());
    stream.extend(BtrfsCommand::from_kind(BtrfsCommandType::BTRFS_SEND_C_END, vec![]).serialize());
    stream.extend(BtrfsCommand::from_kind(BtrfsCommandType::BTRFS_SEND_C_MKDIR, b"e".to_vec()).serialize());
    let mut it = BtrfsCommandIter::new(ByteReader::new(&stream)).unwrap();
    assert_eq!(it.next().unwrap().unwrap().kind, BtrfsCommandType::BTRFS_SEND_C_MKDIR);
    assert_eq!(it.next().unwrap().unwrap().kind, BtrfsCommandType::BTRFS_SEND_C_END);
    assert!(it.next().is_none());
    assert!(it.next().is_none());
}

#[test]
fn iterator_rejects_bad_version() {
    let stream = BtrfsHeader { version: 3 }.serialize();
    assert!(matches!(BtrfsCommandIter::new(ByteReader::new(&stream)), Err(BtrfsParseError::InvalidVersion)));
}

#[test]
fn reader_feed_keeps_unconsumed() {
    let mut reader = ByteReader::new(b"abc");
    reader.advance(2);
    reader.feed(b"de");
    assert_eq!(reader.peek(), b"cde");
    assert_eq!(reader.len(), 3);
}
