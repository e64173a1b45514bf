use btrfs_backup::btrfs::{BtrfsCommand, BtrfsCommandBuf, BtrfsCommandType};
use btrfs_backup::concat::{check_chain, concat_frames, BtrfsCommandConcatIter, BtrfsConcatError, ConcatSource};
use btrfs_backup::payload::{BtrfsSnapshot, BtrfsSubvol};

const U_A: u128 = 0xaaaa_0000_0000_0000_0000_0000_0000_0001;
const U_B: u128 = 0xbbbb_0000_0000_0000_0000_0000_0000_0002;
const U_C: u128 = 0xcccc_0000_0000_0000_0000_0000_0000_0003;

fn frame(command: BtrfsCommand) -> BtrfsCommandBuf {
    BtrfsCommandBuf(command.serialize())
}

fn subvol(name: &[u8], uuid: u128) -> BtrfsCommandBuf {
    frame(BtrfsSubvol { name: name.to_vec(), uuid, ctransid: 10 }.encap())
}

fn snapshot(name: &[u8], uuid: u128, clone: u128) -> BtrfsCommandBuf {
    frame(BtrfsSnapshot { name: name.to_vec(), uuid, ctransid: 20, clone_uuid: clone, clone_ctransid: 10 }.encap())
}

fn write(data: &[u8]) -> BtrfsCommandBuf {
    frame(BtrfsCommand::from_kind(BtrfsCommandType::BTRFS_SEND_C_WRITE, data.to_vec()))
}

fn end() -> BtrfsCommandBuf {
    frame(BtrfsCommand::from_kind(BtrfsCommandType::BTRFS_SEND_C_END, vec![]))
}

fn bytes(frames: &[BtrfsCommandBuf]) -> Vec<Vec<u8>> {
    frames.iter().map(|f| f.0.clone()).collect()
}

#[test]
fn concat_two_streams() {
    let first = vec![subvol(b"A", U_A), write(b"x"), end()];
    let second = vec![snapshot(b"B", U_B, U_A), write(b"y"), end()];
    let out = concat_frames(&vec![first, second]).unwrap();
    let expected = vec![subvol(b"B", U_A), write(b"x"), write(b"y"), end()];
    assert_eq!(bytes(&out), bytes(&expected));
    let root = BtrfsSubvol::load(out[0].get_data()).unwrap();
    assert_eq!(root.name, b"B".to_vec());
    assert_eq!(root.uuid, U_A);
    assert!(out[0].validate_crc32());
}

#[test]
fn concat_chain_break() {
    let first = vec![subvol(b"A", U_A), write(b"x"), end()];
    let second = vec![snapshot(b"B", U_B, U_C), write(b"y"), end()];
    assert_eq!(concat_frames(&vec![first, second]).err(), Some(BtrfsConcatError::ChainBreak));
}

#[test]
fn concat_three_streams_counts() {
    let first = vec![subvol(b"A", U_A), write(b"1"), write(b"2"), end()];
    let second = vec![snapshot(b"B", U_B, U_A), write(b"3"), end()];
    let third = vec![snapshot(b"C", U_C, U_B), write(b"4"), end()];
    let out = concat_frames(&vec![first, second, third]).unwrap();
    let kinds: Vec<_> = out.iter().map(|f| f.get_kind()).collect();
    let ends = kinds.iter().filter(|k| **k == Some(BtrfsCommandType::BTRFS_SEND_C_END)).count();
    let snaps = kinds.iter().filter(|k| **k == Some(BtrfsCommandType::BTRFS_SEND_C_SNAPSHOT)).count();
    let subvols = kinds.iter().filter(|k| **k == Some(BtrfsCommandType::BTRFS_SEND_C_SUBVOL)).count();
    assert_eq!(ends, 1);
    assert_eq!(snaps, 0);
    assert_eq!(subvols, 1);
    assert_eq!(out.len() - ends, 5);
    assert_eq!(kinds.last().unwrap(), &Some(BtrfsCommandType::BTRFS_SEND_C_END));
    assert_eq!(BtrfsSubvol::load(out[0].get_data()).unwrap().name, b"C".to_vec());
}

#[test]
fn concat_middle_chain_break() {
    let first = vec![subvol(b"A", U_A), end()];
    let second = vec![snapshot(b"B", U_B, U_C), end()];
    let third = vec![snapshot(b"C", U_C, U_B), end()];
    assert_eq!(concat_frames(&vec![first, second, third]).err(), Some(BtrfsConcatError::ChainBreak));
}

#[test]
fn concat_needs_two_streams() {
    let first = vec![subvol(b"A", U_A), end()];
    assert_eq!(concat_frames(&vec![first]).err(), Some(BtrfsConcatError::TooFewStreams));
}

#[test]
fn concat_last_must_be_snapshot() {
    let first = vec![subvol(b"A", U_A), end()];
    let second = vec![subvol(b"B", U_B), end()];
    assert_eq!(concat_frames(&vec![first, second]).err(), Some(BtrfsConcatError::InvalidOrder));
}

#[test]
fn concat_engine_sources() {
    let mut engine = BtrfsCommandConcatIter::new(3, snapshot(b"C", U_C, U_B)).unwrap();
    assert_eq!(engine.on_eof(), Ok(ConcatSource::Open(0)));
    assert!(engine.on_command(subvol(b"A", U_A)).unwrap().is_some());
    assert!(engine.on_command(end()).unwrap().is_none());
    assert_eq!(engine.on_eof(), Ok(ConcatSource::Open(1)));
    assert!(engine.on_command(snapshot(b"B", U_B, U_A)).unwrap().is_none());
    assert_eq!(engine.on_eof(), Ok(ConcatSource::ResumeLast));
    let last_end = engine.on_command(end()).unwrap();
    assert!(last_end.is_some());
    assert_eq!(engine.on_eof(), Ok(ConcatSource::Finished));
}

#[test]
fn concat_engine_rejects_second_subvol() {
    let mut engine = BtrfsCommandConcatIter::new(2, snapshot(b"B", U_B, U_A)).unwrap();
    assert_eq!(engine.on_eof(), Ok(ConcatSource::Open(0)));
    engine.on_command(subvol(b"A", U_A)).unwrap();
    assert_eq!(engine.on_command(subvol(b"A2", U_C)).err(), Some(BtrfsConcatError::InvalidOrder));
}

#[test]
fn chain_checked_on_first_frames() {
    let good = vec![subvol(b"A", U_A), snapshot(b"B", U_B, U_A), snapshot(b"C", U_C, U_B)];
    assert_eq!(check_chain(&good), Ok(()));
    let broken = vec![subvol(b"A", U_A), snapshot(b"B", U_B, U_C)];
    assert_eq!(check_chain(&broken), Err(BtrfsConcatError::ChainBreak));
    let two_roots = vec![subvol(b"A", U_A), subvol(b"B", U_B)];
    assert_eq!(check_chain(&two_roots), Err(BtrfsConcatError::InvalidOrder));
}
