use btrfs_backup::btrfs::{BtrfsCommand, BtrfsCommandType, BtrfsHeader, ReadErrorKind};
use btrfs_backup::payload::{BtrfsSnapshot, BtrfsSubvol};
use btrfs_backup::protocol::{Graph, ProtocolClient, ProtocolCommand, ProtocolServer, ServerEvent};
use btrfs_backup::repository::{Repository, StreamFile};
use btrfs_backup::upload::{object_file_name, temp_file_name, temp_name_for};

const REQUEST_MAGIC: [u8; 8] = [0xa8, 0x5b, 0x4b, 0x2b, 0x1b, 0x75, 0x4c, 0x0a];
const RESPONSE_MAGIC: [u8; 8] = [0xfb, 0x70, 0x4c, 0x63, 0x41, 0x1d, 0x9c, 0x0a];

fn stream(first: BtrfsCommand) -> Vec<u8> {
    let mut out = BtrfsHeader { version: 1 }.serialize();
    out.extend(first.serialize());
    out.extend(BtrfsCommand::from_kind(BtrfsCommandType::BTRFS_SEND_C_END, vec![]).serialize());
    out
}

fn repo() -> Repository {
    let full = BtrfsSubvol { name: b"a".to_vec(), uuid: 1, ctransid: 1 };
    let snap = BtrfsSnapshot { name: b"b".to_vec(), uuid: 2, ctransid: 2, clone_uuid: 1, clone_ctransid: 1 };
    let files = vec![
        StreamFile { path: "a".to_string(), head: stream(full.encap()) },
        StreamFile { path: "b".to_string(), head: stream(snap.encap()) },
    ];
    Repository::load_from(&"/r".to_string(), files)
}

fn greeted() -> ProtocolServer {
    let mut server = ProtocolServer::new();
    server.feed(&REQUEST_MAGIC);
    assert_eq!(server.read_magic(), Ok(true));
    assert!(server.take_output().is_empty());
    server.send_magic();
    assert_eq!(server.take_output(), RESPONSE_MAGIC.to_vec());
    server
}

#[test]
fn upload_transaction() {
    let mut server = ProtocolServer::new();
    server.feed(&REQUEST_MAGIC[..5]);
    assert_eq!(server.read_magic(), Err(ReadErrorKind::EndOfFile));
    server.feed(&REQUEST_MAGIC[5..]);
    assert_eq!(server.read_magic(), Ok(true));
    server.send_magic();
    server.feed(&3u64.to_be_bytes());
    server.feed(b"archive bytes");
    let repo = repo();
    assert_eq!(server.serve(&repo), ServerEvent::Upload);
    assert_eq!(server.take_input(), b"archive bytes".to_vec());
    let id: u128 = 0x0123_4567_89ab_cdef_0011_2233_4455_6677;
    server.finish_upload(Some(id));
    let mut expected = RESPONSE_MAGIC.to_vec();
    expected.push(1);
    expected.extend_from_slice(&id.to_be_bytes());
    assert_eq!(server.take_output(), expected);
    assert_eq!(object_file_name(id), "01234567-89ab-cdef-0011-223344556677");
    assert_eq!(object_file_name(0xABCD), "00000000-0000-0000-0000-00000000abcd");
    assert_eq!(temp_file_name(id), "01234567-89ab-cdef-0011-223344556677.tmp");
}

#[test]
fn upload_rollback_reply() {
    let mut server = greeted();
    server.finish_upload(None);
    assert_eq!(server.take_output(), vec![0]);
}

#[test]
fn bad_magic_closes() {
    let mut server = ProtocolServer::new();
    server.feed(&[0u8; 8]);
    server.feed(&[7u8]);
    assert_eq!(server.read_magic(), Ok(false));
    assert!(!server.greeted);
    assert!(server.take_output().is_empty());
    assert_eq!(server.take_input(), vec![7u8]);
}

#[test]
fn list_nodes_reply() {
    let mut server = greeted();
    server.feed(&2u64.to_be_bytes());
    assert_eq!(server.serve(&repo()), ServerEvent::Replied);
    let mut expected = vec![1];
    expected.extend_from_slice(&1u128.to_be_bytes());
    expected.push(1);
    expected.extend_from_slice(&2u128.to_be_bytes());
    expected.push(0);
    assert_eq!(server.take_output(), expected);
}

#[test]
fn find_nodes_reply() {
    let mut server = greeted();
    let mut request = 1u64.to_be_bytes().to_vec();
    request.extend_from_slice(&3u32.to_be_bytes());
    request.extend_from_slice(&9u128.to_be_bytes());
    request.extend_from_slice(&2u128.to_be_bytes());
    server.feed(&request[..20]);
    assert_eq!(server.serve(&repo()), ServerEvent::NeedMore);
    server.feed(&request[20..]);
    assert_eq!(server.serve(&repo()), ServerEvent::NeedMore);
    server.feed(&2u128.to_be_bytes());
    assert_eq!(server.serve(&repo()), ServerEvent::Replied);
    let mut expected = vec![1];
    expected.extend_from_slice(&2u128.to_be_bytes());
    expected.push(0);
    assert_eq!(server.take_output(), expected);
}

#[test]
fn quit_and_invalid_opcodes() {
    let mut server = greeted();
    server.feed(&0u64.to_be_bytes());
    assert_eq!(server.serve(&repo()), ServerEvent::Closed);
    assert!(server.closed);
    let mut server = greeted();
    server.feed(&77u64.to_be_bytes());
    assert_eq!(server.serve(&repo()), ServerEvent::Invalid);
    assert!(server.closed);
    assert_eq!(ProtocolCommand::from_u64(4), Some(ProtocolCommand::GetGraph));
    assert_eq!(ProtocolCommand::from_u64(5), None);
}

#[test]
fn graph_framing() {
    let mut server = greeted();
    server.feed(&4u64.to_be_bytes());
    let repo = repo();
    assert_eq!(server.serve(&repo), ServerEvent::Graph);
    server.send_graph(b"{\"edges\":[]}");
    let sent = server.take_output();
    assert_eq!(&sent[..4], &12u32.to_be_bytes());
    let mut client = ProtocolClient::new();
    client.feed(&sent[..6]);
    assert_eq!(client.read_graph_bytes(), None);
    client.feed(&sent[6..]);
    assert_eq!(client.read_graph_bytes(), Some(b"{\"edges\":[]}".to_vec()));
}

#[test]
fn graph_edges() {
    let repo = repo();
    let graph = Graph::from_nodes(repo.iter_nodes(), &[100, 200]);
    assert_eq!(graph.edges.len(), 2);
    assert_eq!((graph.edges[0].size, graph.edges[0].from_node, graph.edges[0].to_node), (100, None, 1));
    assert_eq!((graph.edges[1].size, graph.edges[1].from_node, graph.edges[1].to_node), (200, Some(1), 2));
    assert!(Graph::new().edges.is_empty());
}

#[test]
fn read_parent_list_waits() {
    let mut server = greeted();
    let mut list = 1u32.to_be_bytes().to_vec();
    list.extend_from_slice(&5u128.to_be_bytes());
    server.feed(&list[..10]);
    assert_eq!(server.read_parent_list(), None);
    server.feed(&list[10..]);
    assert_eq!(server.read_parent_list(), Some(vec![5]));
}

#[test]
fn temp_name_appends_suffix() {
    assert_eq!(temp_name_for("abc".to_string()), "abc.tmp");
    assert_eq!(temp_name_for(String::new()), ".tmp");
}
