use btrfs_backup::btrfs::{BtrfsCommand, BtrfsCommandType, BtrfsHeader};
use btrfs_backup::payload::{BtrfsSnapshot, BtrfsSubvol};
use btrfs_backup::repository::{orphan_paths, BackupNode, BackupNodeKind, Repository, StreamFile};

fn stream(first: BtrfsCommand) -> Vec<u8> {
    let mut out = BtrfsHeader { version: 1 }.serialize();
    out.extend(first.serialize());
    out.extend(BtrfsCommand::from_kind(BtrfsCommandType::BTRFS_SEND_C_END, vec![]).serialize());
    out
}

fn full(path: &str, uuid: u128) -> StreamFile {
    let subvol = BtrfsSubvol { name: path.as_bytes().to_vec(), uuid, ctransid: 1 };
    StreamFile { path: path.to_string(), head: stream(subvol.encap()) }
}

fn incr(path: &str, uuid: u128, parent: u128) -> StreamFile {
    let snap = BtrfsSnapshot { name: path.as_bytes().to_vec(), uuid, ctransid: 2, clone_uuid: parent, clone_ctransid: 1 };
    StreamFile { path: path.to_string(), head: stream(snap.encap()) }
}

fn root() -> String {
    "/backups".to_string()
}

#[test]
fn fsck_detects_orphan() {
    let files = vec![full("u1", 1), incr("u2", 2, 1), incr("u3", 3, 9)];
    let repo = Repository::load_from_nofsck(&root(), files);
    assert_eq!(repo.nodes.len(), 3);
    let orphans = repo.find_orphans();
    assert_eq!(orphans.len(), 1);
    assert!(orphans.contains(&3));
}

#[test]
fn load_prunes_orphans() {
    let files = vec![full("u1", 1), incr("u2", 2, 1), incr("u3", 3, 9)];
    let repo = Repository::load_from(&root(), files);
    let uuids: Vec<u128> = repo.iter_nodes().iter().map(|n| n.uuid).collect();
    assert_eq!(uuids, vec![1, 2]);
    assert_eq!(repo.get_root(), "/backups");
}

#[test]
fn load_skips_files_that_are_not_streams() {
    let files = vec![
        StreamFile { path: "junk".to_string(), head: b"not a stream".to_vec() },
        full("u1", 1),
        StreamFile { path: "empty".to_string(), head: vec![] },
    ];
    let repo = Repository::load_from_nofsck(&root(), files);
    assert_eq!(repo.nodes.len(), 1);
    assert_eq!(repo.nodes[0].path, "u1");
    assert_eq!(repo.nodes[0].parent_uuid, None);
    assert!(matches!(repo.nodes[0].kind, BackupNodeKind::FullBackup(_)));
}

#[test]
fn fsck_order_does_not_matter() {
    let a = vec![full("u1", 1), incr("u2", 2, 1), incr("u4", 4, 2), incr("u3", 3, 9)];
    let b = vec![incr("u4", 4, 2), incr("u3", 3, 9), incr("u2", 2, 1), full("u1", 1)];
    let oa = Repository::load_from_nofsck(&root(), a).find_orphans();
    let ob = Repository::load_from_nofsck(&root(), b).find_orphans();
    assert_eq!(oa, ob);
    assert_eq!(oa.len(), 1);
}

#[test]
fn full_backup_never_orphan() {
    let files = vec![full("u1", 1), full("u5", 5), incr("u6", 6, 5)];
    let orphans = Repository::load_from_nofsck(&root(), files).find_orphans();
    assert!(orphans.is_empty());
}

#[test]
fn cycle_is_orphaned() {
    let files = vec![full("u1", 1), incr("u7", 7, 8), incr("u8", 8, 7), incr("u2", 2, 1)];
    let orphans = Repository::load_from_nofsck(&root(), files).find_orphans();
    assert_eq!(orphans.len(), 2);
    assert!(orphans.contains(&7));
    assert!(orphans.contains(&8));
}

#[test]
fn long_chain_reached() {
    let mut files = vec![];
    for i in (2..40u128).rev() {
        files.push(incr("x", i, i - 1));
    }
    files.push(full("root", 1));
    let orphans = Repository::load_from_nofsck(&root(), files).find_orphans();
    assert!(orphans.is_empty());
}

#[test]
fn node_from_other_command_is_error() {
    let command = BtrfsCommand::from_kind(BtrfsCommandType::BTRFS_SEND_C_WRITE, vec![]);
    assert!(BackupNode::from_btrfs_command(&"p".to_string(), &command).is_err());
    let snap = BtrfsSnapshot { name: b"s".to_vec(), uuid: 3, ctransid: 1, clone_uuid: 2, clone_ctransid: 1 };
    let node = BackupNode::from_btrfs_command(&"p".to_string(), &snap.encap()).unwrap();
    assert_eq!(node.uuid, 3);
    assert_eq!(node.parent_uuid, Some(2));
    assert_eq!(node.name, b"s".to_vec());
}

#[test]
fn empty_repository() {
    let repo = Repository::new(&root());
    assert!(repo.nodes.is_empty());
    assert!(repo.find_orphans().is_empty());
}

#[test]
fn load_keeps_first_of_duplicate_uuids() {
    let files = vec![full("first", 1), full("second", 1), incr("u2", 2, 1), incr("again", 2, 1)];
    let repo = Repository::load_from_nofsck(&root(), files);
    let paths: Vec<&str> = repo.nodes.iter().map(|n| n.path.as_str()).collect();
    assert_eq!(paths, vec!["first", "u2"]);
    let pruned = Repository::load_from(&root(), vec![full("a", 1), full("b", 1)]);
    assert_eq!(pruned.nodes.len(), 1);
}

#[test]
fn orphan_paths_in_node_order() {
    let files = vec![incr("u3", 3, 9), full("u1", 1), incr("u4", 4, 3), incr("u2", 2, 1)];
    let repo = Repository::load_from_nofsck(&root(), files);
    let orphans = repo.find_orphans();
    assert_eq!(orphan_paths(repo.iter_nodes(), &orphans), vec!["u3".to_string(), "u4".to_string()]);
}

#[test]
fn orphan_search_pass_bound() {
    let mut files = vec![];
    for i in (2..10u128).rev() {
        files.push(incr("x", i, i - 1));
    }
    files.push(full("root", 1));
    let repo = Repository::load_from_nofsck(&root(), files);
    let (orphans, passes) = repo.find_orphans_with_passes();
    assert!(orphans.is_empty());
    assert!(passes >= 1 && passes <= 9);
    let (_, passes) = Repository::new(&root()).find_orphans_with_passes();
    assert_eq!(passes, 1);
}

#[test]
fn node_keeps_payload() {
    let subvol = BtrfsSubvol { name: b"v".to_vec(), uuid: 5, ctransid: 77 };
    let node = BackupNode::from_btrfs_command(&"p".to_string(), &subvol.encap()).unwrap();
    match node.kind {
        BackupNodeKind::FullBackup(v) => assert_eq!((v.uuid, v.ctransid, v.name), (5, 77, b"v".to_vec())),
        _ => panic!("expected a full backup"),
    }
}
