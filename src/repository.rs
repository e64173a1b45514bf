//! A repository of backups: one node per send-stream file, taken from the
//! stream's first command, and the orphan check over them.
use vstd::prelude::*;
use std::collections::HashSet;
use crate::fsck::{NodeLink, same_links, closed_under_links, is_rooted, lemma_closed_holds_rooted, orphan_set, rooted_within};
use crate::payload::{BtrfsSnapshot, BtrfsSubvol, snapshot_spec, subvol_spec};
use crate::btrfs::{BtrfsCommand, BtrfsCommandType, BtrfsParseError, CommandModel, ProtocolReason, kind_code, protocol_error};
use crate::bytes::ByteReader;
use crate::stream::{first_command_spec, get_first_command};

verus! {

broadcast use vstd::std_specs::hash::group_hash_axioms;

pub enum BackupNodeKind {
    FullBackup(BtrfsSubvol),
    IncrementalBackup(BtrfsSnapshot),
}

pub struct BackupNode {
    pub kind: BackupNodeKind,
    pub uuid: u128,
    pub parent_uuid: Option<u128>,
    pub path: String,
    pub name: Vec<u8>,
}

impl BackupNode {
    /// The node's place in the backup graph.
    pub open spec fn link(&self) -> NodeLink {
        NodeLink { uuid: self.uuid, parent: self.parent_uuid }
    }
}

/// What the repository records of a backup file.
pub struct NodeModel {
    pub link: NodeLink,
    pub path: Seq<char>,
    pub name: Seq<u8>,
}

impl BackupNode {
    pub open spec fn model(&self) -> NodeModel {
        NodeModel { link: self.link(), path: self.path@, name: self.name@ }
    }

    /// The node's fields agree with the payload it carries.
    pub open spec fn wf(&self) -> bool {
        match self.kind {
            BackupNodeKind::FullBackup(v) => self.uuid == v.uuid && self.parent_uuid is None && self.name@ == v.name@,
            BackupNodeKind::IncrementalBackup(v) => self.uuid == v.uuid && self.parent_uuid == Some(v.clone_uuid)
                && self.name@ == v.name@,
        }
    }
}

/// The node a stream's first command gives: a SUBVOL is a full backup, a
/// SNAPSHOT an incremental one whose parent is the clone source; any other
/// kind gives none.
pub open spec fn node_of(path: Seq<char>, c: CommandModel) -> Result<NodeModel, BtrfsParseError> {
    if c.kind == BtrfsCommandType::BTRFS_SEND_C_SUBVOL {
        match subvol_spec(c.data) {
            Err(e) => Err(e),
            Ok((v, _)) => Ok(NodeModel { link: NodeLink { uuid: v.uuid, parent: None }, path, name: v.name }),
        }
    } else if c.kind == BtrfsCommandType::BTRFS_SEND_C_SNAPSHOT {
        match snapshot_spec(c.data) {
            Err(e) => Err(e),
            Ok((v, _)) => Ok(
                NodeModel { link: NodeLink { uuid: v.uuid, parent: Some(v.clone_uuid) }, path, name: v.name },
            ),
        }
    } else {
        Err(protocol_error(ProtocolReason::WrongCommand(kind_code(c.kind))))
    }
}

/// The node of a stream file, if its start reads as a header and a SUBVOL
/// or SNAPSHOT command.
#[verifier::opaque]
pub open spec fn entry_node(path: Seq<char>, head: Seq<u8>) -> Option<NodeModel> {
    match first_command_spec(head) {
        Err(_) => None,
        Ok(c) => match node_of(path, c) {
            Err(_) => None,
            Ok(n) => Some(n),
        },
    }
}

/// The nodes of the files that give one, in the order of the files.
pub open spec fn loaded_nodes(files: Seq<(Seq<char>, Seq<u8>)>) -> Seq<NodeModel>
    decreases files.len(),
{
    if files.len() == 0 {
        Seq::empty()
    } else {
        let prev = loaded_nodes(files.drop_last());
        match entry_node(files.last().0, files.last().1) {
            Some(n) => prev.push(n),
            None => prev,
        }
    }
}

/// The nodes whose UUID is not in `drop`, in order.
pub open spec fn without_uuids(nodes: Seq<NodeModel>, drop: Set<u128>) -> Seq<NodeModel>
    decreases nodes.len(),
{
    if nodes.len() == 0 {
        Seq::empty()
    } else {
        let prev = without_uuids(nodes.drop_last(), drop);
        if drop.contains(nodes.last().link.uuid) {
            prev
        } else {
            prev.push(nodes.last())
        }
    }
}

/// Whether some node of `ns` has UUID `u`.
pub open spec fn has_uuid(ns: Seq<NodeModel>, u: u128) -> bool {
    exists|i: int| 0 <= i < ns.len() && ns[i].link.uuid == u
}

/// The nodes of `ns` whose UUID no earlier node has, in order: of several
/// nodes with one UUID, the first is kept.
pub open spec fn first_of_each_uuid(ns: Seq<NodeModel>) -> Seq<NodeModel>
    decreases ns.len(),
{
    if ns.len() == 0 {
        Seq::empty()
    } else {
        let prev = first_of_each_uuid(ns.drop_last());
        if has_uuid(ns.drop_last(), ns.last().link.uuid) {
            prev
        } else {
            prev.push(ns.last())
        }
    }
}

/// No two nodes of `ns` have the same UUID.
pub open spec fn uuids_distinct(ns: Seq<NodeModel>) -> bool {
    forall|i: int, j: int| 0 <= i < j < ns.len() ==> ns[i].link.uuid != ns[j].link.uuid
}

/// The nodes a repository holds after loading `files`: one per UUID, the
/// first file's in order.
pub open spec fn unique_nodes(files: Seq<(Seq<char>, Seq<u8>)>) -> Seq<NodeModel> {
    first_of_each_uuid(loaded_nodes(files))
}

/// The links of a sequence of node models, in order.
pub open spec fn model_links(nodes: Seq<NodeModel>) -> Seq<NodeLink> {
    nodes.map_values(|n: NodeModel| n.link)
}

/// The links of a sequence of nodes, in order.
pub open spec fn links_of(nodes: Seq<BackupNode>) -> Seq<NodeLink> {
    nodes.map_values(|n: BackupNode| n.link())
}

#[derive(Clone, Copy)]
struct FsckReachabilityRecord {
    is_reachable: bool,
    uuid: u128,
    parent_uuid: u128,
}

spec fn pending_count(rs: Seq<FsckReachabilityRecord>) -> nat
    decreases rs.len(),
{
    if rs.len() == 0 {
        0
    } else {
        pending_count(rs.drop_last()) + if rs.last().is_reachable {
            0nat
        } else {
            1nat
        }
    }
}

proof fn lemma_unreached_mark(rs: Seq<FsckReachabilityRecord>, k: int, r: FsckReachabilityRecord)
    requires
        0 <= k < rs.len(),
        !rs[k].is_reachable,
        r.is_reachable,
    ensures
        pending_count(rs.update(k, r)) + 1 == pending_count(rs),
    decreases rs.len(),
{
    if k == rs.len() - 1 {
        assert(rs.update(k, r).drop_last() =~= rs.drop_last());
    } else {
        assert(rs.update(k, r).drop_last() =~= rs.drop_last().update(k, r));
        lemma_unreached_mark(rs.drop_last(), k, r);
    }
}

spec fn record_sound(links: Seq<NodeLink>, r: FsckReachabilityRecord) -> bool {
    exists|j: int| 0 <= j < links.len() && links[j].uuid == r.uuid && links[j].parent == Some(r.parent_uuid)
}

spec fn has_record(rs: Seq<FsckReachabilityRecord>, u: u128, p: u128) -> bool {
    exists|k: int| 0 <= k < rs.len() && rs[k].uuid == u && rs[k].parent_uuid == p
}

spec fn covered(links: Seq<NodeLink>, rs: Seq<FsckReachabilityRecord>, rr: Set<u128>, j: int) -> bool {
    links[j].parent is Some ==> (has_record(rs, links[j].uuid, links[j].parent.unwrap()) || (rr.contains(links[j].uuid)
        && rr.contains(links[j].parent.unwrap())))
}

spec fn search_inv(links: Seq<NodeLink>, rs: Seq<FsckReachabilityRecord>, rr: Set<u128>) -> bool {
    &&& forall|u: u128| rr.contains(u) ==> is_rooted(links, u)
    &&& forall|k: int| 0 <= k < rs.len() ==> record_sound(links, #[trigger] rs[k])
    &&& forall|k: int| 0 <= k < rs.len() && (#[trigger] rs[k]).is_reachable ==> rr.contains(rs[k].uuid) && rr.contains(rs[k].parent_uuid)
    &&& forall|j: int| 0 <= j < links.len() ==> #[trigger] covered(links, rs, rr, j)
    &&& forall|j: int| 0 <= j < links.len() && links[j].parent is None ==> rr.contains(#[trigger] links[j].uuid)
}

/// Keeps the records not yet reached, in order.
fn keep_pending(records: &Vec<FsckReachabilityRecord>) -> (r: Vec<FsckReachabilityRecord>)
    ensures
        pending_count(r@) == pending_count(records@),
        forall|k: int| 0 <= k < r@.len() ==> !(#[trigger] r@[k]).is_reachable,
        forall|k: int| 0 <= k < r@.len() ==> exists|m: int| 0 <= m < records@.len() && records@[m] == #[trigger] r@[k],
        forall|m: int| 0 <= m < records@.len() && !records@[m].is_reachable ==> exists|k: int| 0 <= k < r@.len() && r@[k] == #[trigger] records@[m],
{
    let mut out: Vec<FsckReachabilityRecord> = Vec::new();
    let mut i: usize = 0;
    while i < records.len()
        invariant
            i <= records@.len(),
            pending_count(out@) == pending_count(records@.subrange(0, i as int)),
            forall|k: int| 0 <= k < out@.len() ==> !(#[trigger] out@[k]).is_reachable,
            forall|k: int| 0 <= k < out@.len() ==> exists|m: int| 0 <= m < i && records@[m] == #[trigger] out@[k],
            forall|m: int| 0 <= m < i && !records@[m].is_reachable ==> exists|k: int| 0 <= k < out@.len() && out@[k] == #[trigger] records@[m],
        decreases records@.len() - i,
    {
        let r = records[i];
        assert(records@.subrange(0, i + 1).drop_last() =~= records@.subrange(0, i as int));
        if !r.is_reachable {
            let ghost before = out@;
            out.push(r);
            assert(out@.drop_last() =~= before);
            assert(out@[out@.len() - 1] == records@[i as int]);
        }
        i = i + 1;
    }
    assert(records@.subrange(0, records@.len() as int) =~= records@);
    out
}

/// Drops the records already reached: what they stood for is in `rr`.
fn drop_reached(records: &Vec<FsckReachabilityRecord>, Ghost(links): Ghost<Seq<NodeLink>>, Ghost(rr): Ghost<Set<u128>>) -> (r: Vec<FsckReachabilityRecord>)
    requires
        search_inv(links, records@, rr),
    ensures
        search_inv(links, r@, rr),
        pending_count(r@) == pending_count(records@),
        forall|k: int| 0 <= k < r@.len() ==> exists|m: int| 0 <= m < records@.len() && records@[m] == #[trigger] r@[k],
{
    let out = keep_pending(records);
    let ghost rs = records@;
    let ghost os = out@;
    proof {
        assert forall|k: int| 0 <= k < os.len() implies record_sound(links, #[trigger] os[k]) by {
            let m = choose|m: int| 0 <= m < rs.len() && rs[m] == os[k];
            assert(record_sound(links, rs[m]));
        }
        assert forall|j: int| 0 <= j < links.len() implies #[trigger] covered(links, os, rr, j) by {
            assert(covered(links, rs, rr, j));
            if links[j].parent is Some && has_record(rs, links[j].uuid, links[j].parent.unwrap()) {
                let m = choose|m: int| 0 <= m < rs.len() && rs[m].uuid == links[j].uuid && rs[m].parent_uuid == links[j].parent.unwrap();
                if !rs[m].is_reachable {
                    let k = choose|k: int| 0 <= k < os.len() && os[k] == rs[m];
                    assert(has_record(os, links[j].uuid, links[j].parent.unwrap()));
                }
            }
        }
    }
    out
}

impl BackupNode {
    /// The node that a stream's first command gives; a command of another
    /// kind than SUBVOL or SNAPSHOT, or a payload that does not read, gives
    /// an error.
    pub fn from_btrfs_command(path: &String, command: &BtrfsCommand) -> (r: Result<BackupNode, BtrfsParseError>)
        ensures
            match r {
                Ok(n) => node_of(path@, command@) == Ok::<NodeModel, BtrfsParseError>(n.model()) && n.wf()
                    && match n.kind {
                    BackupNodeKind::FullBackup(v) => command.kind == BtrfsCommandType::BTRFS_SEND_C_SUBVOL
                        && subvol_spec(command.data@) is Ok && v@ == subvol_spec(command.data@).unwrap().0,
                    BackupNodeKind::IncrementalBackup(v) => command.kind == BtrfsCommandType::BTRFS_SEND_C_SNAPSHOT
                        && snapshot_spec(command.data@) is Ok && v@ == snapshot_spec(command.data@).unwrap().0,
                },
                Err(e) => node_of(path@, command@) == Err::<NodeModel, BtrfsParseError>(e),
            },
    {
        match command.kind {
            BtrfsCommandType::BTRFS_SEND_C_SUBVOL => {
                let subvol = BtrfsSubvol::load(command.data.as_slice())?;
                let name = vstd::slice::slice_to_vec(subvol.name.as_slice());
                Ok(BackupNode {
                    uuid: subvol.uuid,
                    parent_uuid: None,
                    path: path.clone(),
                    name,
                    kind: BackupNodeKind::FullBackup(subvol),
                })
            },
            BtrfsCommandType::BTRFS_SEND_C_SNAPSHOT => {
                let snap = BtrfsSnapshot::load(command.data.as_slice())?;
                let name = vstd::slice::slice_to_vec(snap.name.as_slice());
                Ok(BackupNode {
                    uuid: snap.uuid,
                    parent_uuid: Some(snap.clone_uuid),
                    path: path.clone(),
                    name,
                    kind: BackupNodeKind::IncrementalBackup(snap),
                })
            },
            _ => Err(BtrfsParseError::ProtocolError(ProtocolReason::WrongCommand(command.kind.to_u16()))),
        }
    }
}

/// The start of a file in the repository directory: its path, and its
/// first bytes (at least the stream header and the first frame, where the
/// file holds them).
pub struct StreamFile {
    pub path: String,
    pub head: Vec<u8>,
}

pub open spec fn files_view(files: Seq<StreamFile>) -> Seq<(Seq<char>, Seq<u8>)> {
    files.map_values(|f: StreamFile| (f.path@, f.head@))
}

pub struct Repository {
    pub root: String,
    pub nodes: Vec<BackupNode>,
}

impl Repository {
    pub open spec fn root_path(&self) -> Seq<char> {
        self.root@
    }

    pub open spec fn node_models(&self) -> Seq<NodeModel> {
        self.nodes@.map_values(|n: BackupNode| n.model())
    }

    /// An empty repository rooted at `path`.
    pub fn new(path: &String) -> (r: Repository)
        ensures
            r.root_path() == path@,
            r.nodes@.len() == 0,
    {
        Repository { root: path.clone(), nodes: Vec::new() }
    }

    /// Loads the repository at `path` from the starts of its files, leaving
    /// out the orphans.
    pub fn load_from(path: &String, files: Vec<StreamFile>) -> (r: Repository)
        ensures
            r.root_path() == path@,
            r.node_models() == without_uuids(
                unique_nodes(files_view(files@)),
                orphan_set(model_links(unique_nodes(files_view(files@)))),
            ),
            uuids_distinct(r.node_models()),
            forall|i: int| 0 <= i < r.nodes@.len() ==> (#[trigger] r.nodes@[i]).wf(),
    {
        Repository::new(path).load(files, true)
    }

    /// Loads the repository at `path` from the starts of its files, orphans
    /// included.
    pub fn load_from_nofsck(path: &String, files: Vec<StreamFile>) -> (r: Repository)
        ensures
            r.root_path() == path@,
            r.node_models() == unique_nodes(files_view(files@)),
            uuids_distinct(r.node_models()),
            forall|i: int| 0 <= i < r.nodes@.len() ==> (#[trigger] r.nodes@[i]).wf(),
    {
        Repository::new(path).load(files, false)
    }

    fn load(self, files: Vec<StreamFile>, fsck: bool) -> (r: Repository)
        requires
            self.nodes@.len() == 0,
        ensures
            r.root_path() == self.root_path(),
            r.node_models() == if fsck {
                without_uuids(
                    unique_nodes(files_view(files@)),
                    orphan_set(model_links(unique_nodes(files_view(files@)))),
                )
            } else {
                unique_nodes(files_view(files@))
            },
            uuids_distinct(r.node_models()),
            forall|i: int| 0 <= i < r.nodes@.len() ==> (#[trigger] r.nodes@[i]).wf(),
    {
        let ghost fv = files_view(files@);
        reveal(entry_node);
        let mut nodes: Vec<BackupNode> = Vec::new();
        let mut seen: HashSet<u128> = HashSet::new();
        let mut i: usize = 0;
        while i < files.len()
            invariant
                i <= files@.len(),
                fv == files_view(files@),
                nodes@.map_values(|n: BackupNode| n.model()) == first_of_each_uuid(loaded_nodes(fv.subrange(0, i as int))),
                seen@ == Set::new(|u: u128| has_uuid(loaded_nodes(fv.subrange(0, i as int)), u)),
                forall|k: int| 0 <= k < nodes@.len() ==> (#[trigger] nodes@[k]).wf(),
            decreases files@.len() - i,
        {
            proof {
                reveal(entry_node);
            }
            let file = &files[i];
            let mut reader = ByteReader::new(file.head.as_slice());
            let ghost before = nodes@;
            assert(fv.subrange(0, i + 1).drop_last() =~= fv.subrange(0, i as int));
            assert(fv[i as int] == (file.path@, file.head@));
            let ghost prev = loaded_nodes(fv.subrange(0, i as int));
            if let Ok(command) = get_first_command(&mut reader) {
                if let Ok(node) = BackupNode::from_btrfs_command(&file.path, &command) {
                    let ghost cur = prev.push(node.model());
                    assert(loaded_nodes(fv.subrange(0, i + 1)) == cur);
                    assert(cur.drop_last() =~= prev);
                    if !seen.contains(&node.uuid) {
                        let uuid = node.uuid;
                        nodes.push(node);
                        seen.insert(uuid);
                        assert(nodes@.map_values(|n: BackupNode| n.model()) =~= before.map_values(|n: BackupNode| n.model()).push(node.model()));
                    }
                    assert forall|u: u128| has_uuid(cur, u) <==> seen@.contains(u) by {
                        if has_uuid(cur, u) {
                            let k = choose|k: int| 0 <= k < cur.len() && cur[k].link.uuid == u;
                            if k < prev.len() {
                                assert(prev[k] == cur[k]);
                            }
                        }
                        if has_uuid(prev, u) {
                            let k = choose|k: int| 0 <= k < prev.len() && prev[k].link.uuid == u;
                            assert(cur[k] == prev[k]);
                        }
                        if u == node.uuid {
                            assert(cur[prev.len() as int].link.uuid == u);
                        }
                    }
                    assert(seen@ =~= Set::new(|u: u128| has_uuid(cur, u)));
                }
            }
            i = i + 1;
        }
        assert(fv.subrange(0, files@.len() as int) =~= fv);
        let ghost all = nodes@.map_values(|n: BackupNode| n.model());
        proof {
            lemma_first_of_each_uuid(loaded_nodes(fv));
        }
        if fsck {
            let (orphans, _) = find_orphan_uuids(&nodes);
            proof {
                assert(links_of(nodes@) =~= model_links(all));
            }
            let ghost total = nodes@;
            let count = nodes.len();
            let mut kept: Vec<BackupNode> = Vec::new();
            let mut k: usize = 0;
            while nodes.len() > 0
                invariant
                    k <= total.len(),
                    total.len() == count,
                    nodes@ == total.subrange(k as int, total.len() as int),
                    all == total.map_values(|n: BackupNode| n.model()),
                    orphans@ == orphan_set(model_links(all)),
                    kept@.map_values(|n: BackupNode| n.model()) == without_uuids(all.subrange(0, k as int), orphans@),
                    forall|m: int| 0 <= m < total.len() ==> (#[trigger] total[m]).wf(),
                    forall|m: int| 0 <= m < kept@.len() ==> (#[trigger] kept@[m]).wf(),
                decreases nodes@.len(),
            {
                assert(all.subrange(0, k + 1).drop_last() =~= all.subrange(0, k as int));
                let node = nodes.remove(0);
                assert(node == total[k as int]);
                assert(nodes@ =~= total.subrange(k + 1, total.len() as int));
                if !orphans.contains(&node.uuid) {
                    let ghost before = kept@;
                    kept.push(node);
                    assert(kept@.map_values(|n: BackupNode| n.model()) =~= before.map_values(|n: BackupNode| n.model()).push(node.model()));
                }
                k = k + 1;
            }
            assert(all.subrange(0, total.len() as int) =~= all);
            proof {
                lemma_without_uuids_distinct(all, orphans@);
            }
            Repository { root: self.root, nodes: kept }
        } else {
            Repository { root: self.root, nodes }
        }
    }

    /// The nodes, in the order they were loaded.
    pub fn iter_nodes(&self) -> (r: &[BackupNode])
        ensures
            r@ == self.nodes@,
    {
        self.nodes.as_slice()
    }

    /// The repository's directory.
    pub fn get_root(&self) -> (r: &String)
        ensures
            r@ == self.root_path(),
    {
        &self.root
    }

    /// The UUIDs of the incremental backups that are not reached from a full
    /// backup through parent links.
    pub fn find_orphans(&self) -> (r: HashSet<u128>)
        ensures
            r@ == orphan_set(links_of(self.nodes@)),
    {
        find_orphan_uuids(&self.nodes).0
    }

    /// The orphans, with the number of passes the reachability search took:
    /// at least one, and at most one more than the incremental backups, as
    /// each pass but the last reaches at least one more of them.
    pub fn find_orphans_with_passes(&self) -> (r: (HashSet<u128>, u128))
        ensures
            r.0@ == orphan_set(links_of(self.nodes@)),
            1 <= r.1 <= incremental_count(links_of(self.nodes@)) + 1,
    {
        find_orphan_uuids(&self.nodes)
    }
}

/// The UUIDs of the incremental backups among `nodes` that are not reached
/// from a full backup: a fixpoint of the set reached, grown pass by pass.
#[verifier::rlimit(40)]
fn find_orphan_uuids(nodes: &Vec<BackupNode>) -> (r: (HashSet<u128>, u128))
    ensures
        r.0@ == orphan_set(links_of(nodes@)),
        1 <= r.1 <= incremental_count(links_of(nodes@)) + 1,
{
    let ghost links = links_of(nodes@);
    let node_count = nodes.len();
    proof {
        lemma_incremental_count_le(links);
    }
    let mut root_reachable: HashSet<u128> = HashSet::new();
    let mut records: Vec<FsckReachabilityRecord> = Vec::new();
    let mut i: usize = 0;
    while i < nodes.len()
        invariant
            i <= nodes@.len(),
            links == links_of(nodes@),
            forall|u: u128| root_reachable@.contains(u) ==> is_rooted(links, u),
            forall|k: int| 0 <= k < records@.len() ==> record_sound(links, #[trigger] records@[k]),
            forall|k: int| 0 <= k < records@.len() ==> !(#[trigger] records@[k]).is_reachable,
            forall|j: int| 0 <= j < i ==> #[trigger] covered(links, records@, root_reachable@, j),
            forall|j: int| 0 <= j < i && links[j].parent is None ==> root_reachable@.contains(#[trigger] links[j].uuid),
            pending_count(records@) == incremental_count(links.subrange(0, i as int)),
        decreases nodes@.len() - i,
    {
        assert(links.subrange(0, i + 1).drop_last() =~= links.subrange(0, i as int));
        let node = &nodes[i];
        assert(links[i as int] == node.link());
        match node.parent_uuid {
            None => {
                let ghost rr1 = root_reachable@;
                root_reachable.insert(node.uuid);
                assert(rooted_within(links, node.uuid, 0));
                assert forall|j: int| 0 <= j <= i implies #[trigger] covered(links, records@, root_reachable@, j) by {
                    if j < i {
                        assert(covered(links, records@, rr1, j));
                    }
                }
            },
            Some(p) => {
                let ghost before = records@;
                records.push(FsckReachabilityRecord { is_reachable: false, uuid: node.uuid, parent_uuid: p });
                assert(records@.drop_last() =~= before);
                assert(forall|k: int| 0 <= k < before.len() ==> records@[k] == before[k]);
                assert forall|j: int| 0 <= j <= i implies #[trigger] covered(links, records@, root_reachable@, j) by {
                    if j < i {
                        assert(covered(links, before, root_reachable@, j));
                        if links[j].parent is Some && has_record(before, links[j].uuid, links[j].parent.unwrap()) {
                            let k = choose|k: int| 0 <= k < before.len() && before[k].uuid == links[j].uuid && before[k].parent_uuid == links[j].parent.unwrap();
                            assert(records@[k] == before[k]);
                        }
                    } else {
                        assert(records@[before.len() as int].uuid == links[j].uuid);
                    }
                }
                assert(record_sound(links, records@[before.len() as int]));
            },
        }
        i = i + 1;
    }
    assert(search_inv(links, records@, root_reachable@));
    assert(links.subrange(0, nodes@.len() as int) =~= links);
    let ghost incr = incremental_count(links);
    let mut passes: u128 = 0;
    loop
        invariant_except_break
            passes + pending_count(records@) <= incr,
        invariant
            links == links_of(nodes@),
            search_inv(links, records@, root_reachable@),
            incr == incremental_count(links),
            incr <= node_count,
        ensures
            search_inv(links, records@, root_reachable@),
            1 <= passes <= incr + 1,
            forall|k: int| 0 <= k < records@.len() && !(#[trigger] records@[k]).is_reachable ==> !root_reachable@.contains(records@[k].parent_uuid),
        decreases pending_count(records@),
    {
        let ghost rs0 = records@;
        let ghost rr0 = root_reachable@;
        passes = passes + 1;
        let mut changed = false;
        let mut reachables_found: usize = 0;
        let mut total_scanned: usize = 0;
        let mut idx: usize = 0;
        while idx < records.len()
            invariant
                idx <= records@.len(),
                records@.len() == rs0.len(),
                total_scanned == idx,
                reachables_found <= idx,
                links == links_of(nodes@),
                search_inv(links, records@, root_reachable@),
                forall|k: int| 0 <= k < rs0.len() ==> (#[trigger] records@[k]).uuid == rs0[k].uuid && records@[k].parent_uuid == rs0[k].parent_uuid,
                rr0.subset_of(root_reachable@),
                !changed ==> records@ == rs0 && root_reachable@ == rr0,
                !changed ==> forall|k: int| 0 <= k < idx && !(#[trigger] records@[k]).is_reachable ==> !root_reachable@.contains(records@[k].parent_uuid),
                changed ==> pending_count(records@) < pending_count(rs0),
            decreases records@.len() - idx,
        {
            total_scanned = total_scanned + 1;
            let record = records[idx];
            if record.is_reachable {
                reachables_found = reachables_found + 1;
            } else if root_reachable.contains(&record.parent_uuid) {
                let ghost rs1 = records@;
                let ghost rr1 = root_reachable@;
                proof {
                    let k = choose|k: nat| rooted_within(links, record.parent_uuid, k);
                    assert(record_sound(links, rs1[idx as int]));
                    let j = choose|j: int| 0 <= j < links.len() && links[j].uuid == record.uuid && links[j].parent == Some(record.parent_uuid);
                    assert(rooted_within(links, record.uuid, k + 1));
                }
                root_reachable.insert(record.uuid);
                let marked = FsckReachabilityRecord { is_reachable: true, ..record };
                records.set(idx, marked);
                changed = true;
                reachables_found = reachables_found + 1;
                proof {
                    lemma_unreached_mark(rs1, idx as int, marked);
                    assert forall|j: int| 0 <= j < links.len() implies #[trigger] covered(links, records@, root_reachable@, j) by {
                        assert(covered(links, rs1, rr1, j));
                        if links[j].parent is Some && has_record(rs1, links[j].uuid, links[j].parent.unwrap()) {
                            let k = choose|k: int| 0 <= k < rs1.len() && rs1[k].uuid == links[j].uuid && rs1[k].parent_uuid == links[j].parent.unwrap();
                            assert(records@[k].uuid == rs1[k].uuid);
                        }
                    }
                    assert forall|k: int| 0 <= k < records@.len() implies record_sound(links, #[trigger] records@[k]) by {
                        assert(record_sound(links, rs1[k]));
                    }
                }
            }
            idx = idx + 1;
        }
        if (total_scanned as u128) * 3 <= 4 * (reachables_found as u128) {
            let ghost before = records@;
            records = drop_reached(&records, Ghost(links), Ghost(root_reachable@));
            proof {
                if !changed {
                    assert forall|k: int| 0 <= k < records@.len() && !(#[trigger] records@[k]).is_reachable implies !root_reachable@.contains(records@[k].parent_uuid) by {
                        let m = choose|m: int| 0 <= m < before.len() && before[m] == records@[k];
                    }
                }
            }
        }
        if !changed {
            let ghost rs = records@;
            let ghost rr = root_reachable@;
            proof {
                assert(forall|k: int| 0 <= k < rs.len() && !(#[trigger] rs[k]).is_reachable ==> !rr.contains(rs[k].parent_uuid));
            }
            break;
        }
    }
    let ghost rs = records@;
    let ghost rr = root_reachable@;
    assert(forall|k: int| 0 <= k < rs.len() && !(#[trigger] rs[k]).is_reachable ==> !rr.contains(rs[k].parent_uuid));
    proof {
        assert forall|j: int| 0 <= j < links.len() && #[trigger] links[j].parent is Some && rr.contains(links[j].parent.unwrap()) implies rr.contains(links[j].uuid) by {
            assert(covered(links, rs, rr, j));
            if has_record(rs, links[j].uuid, links[j].parent.unwrap()) {
                let k = choose|k: int| 0 <= k < rs.len() && rs[k].uuid == links[j].uuid && rs[k].parent_uuid == links[j].parent.unwrap();
                if !rs[k].is_reachable {
                    assert(!rr.contains(rs[k].parent_uuid));
                }
            }
        }
        assert(closed_under_links(links, rr));
    }
    let mut out: HashSet<u128> = HashSet::new();
    let mut i: usize = 0;
    while i < records.len()
        invariant
            i <= rs.len(),
            records@ == rs,
            out@ == Set::new(|u: u128| exists|k: int| 0 <= k < i && !rs[k].is_reachable && rs[k].uuid == u),
        decreases rs.len() - i,
    {
        let r = records[i];
        if !r.is_reachable {
            out.insert(r.uuid);
        }
        i = i + 1;
        assert(out@ =~= Set::new(|u: u128| exists|k: int| 0 <= k < i && !rs[k].is_reachable && rs[k].uuid == u));
    }
    proof {
        assert forall|u: u128| out@.contains(u) implies orphan_set(links).contains(u) by {
            let k = choose|k: int| 0 <= k < rs.len() && !rs[k].is_reachable && rs[k].uuid == u;
            assert(record_sound(links, rs[k]));
            let j = choose|j: int| 0 <= j < links.len() && links[j].uuid == rs[k].uuid && links[j].parent == Some(rs[k].parent_uuid);
            if is_rooted(links, rs[k].parent_uuid) {
                let n = choose|n: nat| rooted_within(links, rs[k].parent_uuid, n);
                lemma_closed_holds_rooted(links, rr, rs[k].parent_uuid, n);
            }
            assert(links[j].parent is Some);
        }
        assert forall|u: u128| orphan_set(links).contains(u) implies out@.contains(u) by {
            let j = choose|j: int| 0 <= j < links.len() && links[j].uuid == u && #[trigger] links[j].parent is Some && !is_rooted(links, links[j].parent.unwrap());
            assert(covered(links, rs, rr, j));
            let p = links[j].parent.unwrap();
            assert(!rr.contains(p));
            let k = choose|k: int| 0 <= k < rs.len() && rs[k].uuid == links[j].uuid && rs[k].parent_uuid == p;
        }
        assert(out@ =~= orphan_set(links));
    }
    (out, passes)
}

/// The number of incremental backups among `links`.
pub open spec fn incremental_count(links: Seq<NodeLink>) -> nat
    decreases links.len(),
{
    if links.len() == 0 {
        0
    } else {
        incremental_count(links.drop_last()) + if links.last().parent is Some {
            1nat
        } else {
            0nat
        }
    }
}

proof fn lemma_incremental_count_le(links: Seq<NodeLink>)
    ensures
        incremental_count(links) <= links.len(),
    decreases links.len(),
{
    if links.len() > 0 {
        lemma_incremental_count_le(links.drop_last());
    }
}

} // verus!

verus! {

proof fn lemma_loaded_contains(files: Seq<(Seq<char>, Seq<u8>)>, n: NodeModel)
    ensures
        loaded_nodes(files).contains(n) <==> exists|i: int| 0 <= i < files.len() && entry_node(files[i].0, files[i].1) == Some(n),
    decreases files.len(),
{
    if files.len() > 0 {
        let prev = files.drop_last();
        let last = files[files.len() - 1];
        assert(files.last() == last);
        let l = loaded_nodes(files);
        let lp = loaded_nodes(prev);
        lemma_loaded_contains(prev, n);
        assert forall|i: int| 0 <= i < prev.len() implies prev[i] == files[i] by {}
        match entry_node(last.0, last.1) {
            Some(m) => {
                assert(l == lp.push(m));
                if l.contains(n) {
                    let j = choose|j: int| 0 <= j < l.len() && l[j] == n;
                    if j == l.len() - 1 {
                        assert(entry_node(files[files.len() - 1].0, files[files.len() - 1].1) == Some(n));
                    } else {
                        assert(lp[j] == n);
                        let i = choose|i: int| 0 <= i < prev.len() && entry_node(prev[i].0, prev[i].1) == Some(n);
                        assert(prev[i] == files[i]);
                    }
                }
                if exists|i: int| 0 <= i < files.len() && entry_node(files[i].0, files[i].1) == Some(n) {
                    let i = choose|i: int| 0 <= i < files.len() && entry_node(files[i].0, files[i].1) == Some(n);
                    if i == files.len() - 1 {
                        assert(l[l.len() - 1] == n);
                    } else {
                        assert(prev[i] == files[i]);
                        let j = choose|j: int| 0 <= j < lp.len() && lp[j] == n;
                        assert(l[j] == n);
                    }
                }
            },
            None => {
                assert(l == lp);
                if exists|i: int| 0 <= i < files.len() && entry_node(files[i].0, files[i].1) == Some(n) {
                    let i = choose|i: int| 0 <= i < files.len() && entry_node(files[i].0, files[i].1) == Some(n);
                    assert(i != files.len() - 1);
                    assert(prev[i] == files[i]);
                }
                if l.contains(n) {
                    let i = choose|i: int| 0 <= i < prev.len() && entry_node(prev[i].0, prev[i].1) == Some(n);
                    assert(prev[i] == files[i]);
                }
            },
        }
    }
}

proof fn lemma_model_links_contains(ns: Seq<NodeModel>, x: NodeLink)
    ensures
        model_links(ns).contains(x) <==> exists|i: int| 0 <= i < ns.len() && ns[i].link == x,
{
    if model_links(ns).contains(x) {
        let j = choose|j: int| 0 <= j < model_links(ns).len() && model_links(ns)[j] == x;
        assert(ns[j].link == x);
    }
    if exists|i: int| 0 <= i < ns.len() && ns[i].link == x {
        let i = choose|i: int| 0 <= i < ns.len() && ns[i].link == x;
        assert(model_links(ns)[i] == x);
    }
}

proof fn lemma_loaded_links_independent_of_order(a: Seq<(Seq<char>, Seq<u8>)>, b: Seq<(Seq<char>, Seq<u8>)>)
    requires
        a.to_multiset() =~= b.to_multiset(),
    ensures
        same_links(model_links(loaded_nodes(a)), model_links(loaded_nodes(b))),
        forall|n: NodeModel| loaded_nodes(a).contains(n) <==> loaded_nodes(b).contains(n),
{
    a.to_multiset_ensures();
    b.to_multiset_ensures();
    let la = model_links(loaded_nodes(a));
    let lb = model_links(loaded_nodes(b));
    assert forall|x: NodeLink| la.contains(x) implies lb.contains(x) by {
        lemma_model_links_contains(loaded_nodes(a), x);
        let i = choose|i: int| 0 <= i < loaded_nodes(a).len() && loaded_nodes(a)[i].link == x;
        let n = loaded_nodes(a)[i];
        lemma_loaded_contains(a, n);
        let k = choose|k: int| 0 <= k < a.len() && entry_node(a[k].0, a[k].1) == Some(n);
        assert(a.contains(a[k]));
        assert(a.to_multiset().count(a[k]) > 0);
        assert(b.contains(a[k]));
        let m = choose|m: int| 0 <= m < b.len() && b[m] == a[k];
        lemma_loaded_contains(b, n);
        assert(loaded_nodes(b).contains(n));
        let j = choose|j: int| 0 <= j < loaded_nodes(b).len() && loaded_nodes(b)[j] == n;
        lemma_model_links_contains(loaded_nodes(b), x);
    }
    assert forall|x: NodeLink| lb.contains(x) implies la.contains(x) by {
        lemma_model_links_contains(loaded_nodes(b), x);
        let i = choose|i: int| 0 <= i < loaded_nodes(b).len() && loaded_nodes(b)[i].link == x;
        let n = loaded_nodes(b)[i];
        lemma_loaded_contains(b, n);
        let k = choose|k: int| 0 <= k < b.len() && entry_node(b[k].0, b[k].1) == Some(n);
        assert(b.contains(b[k]));
        assert(b.to_multiset().count(b[k]) > 0);
        assert(a.contains(b[k]));
        let m = choose|m: int| 0 <= m < a.len() && a[m] == b[k];
        lemma_loaded_contains(a, n);
        assert(loaded_nodes(a).contains(n));
        let j = choose|j: int| 0 <= j < loaded_nodes(a).len() && loaded_nodes(a)[j] == n;
        lemma_model_links_contains(loaded_nodes(a), x);
    }
    assert forall|n: NodeModel| loaded_nodes(a).contains(n) <==> loaded_nodes(b).contains(n) by {
        lemma_loaded_contains(a, n);
        lemma_loaded_contains(b, n);
        if loaded_nodes(a).contains(n) {
            let k = choose|k: int| 0 <= k < a.len() && entry_node(a[k].0, a[k].1) == Some(n);
            assert(a.contains(a[k]));
            assert(a.to_multiset().count(a[k]) > 0);
            assert(b.contains(a[k]));
            let m = choose|m: int| 0 <= m < b.len() && b[m] == a[k];
        }
        if loaded_nodes(b).contains(n) {
            let k = choose|k: int| 0 <= k < b.len() && entry_node(b[k].0, b[k].1) == Some(n);
            assert(b.contains(b[k]));
            assert(b.to_multiset().count(b[k]) > 0);
            assert(a.contains(b[k]));
            let m = choose|m: int| 0 <= m < a.len() && a[m] == b[k];
        }
    }
}

/// Nodes that share a UUID share their parent link too.
pub open spec fn links_consistent(ns: Seq<NodeModel>) -> bool {
    forall|x: NodeModel, y: NodeModel|
        ns.contains(x) && ns.contains(y) && x.link.uuid == y.link.uuid ==> x.link == y.link
}

proof fn lemma_unique_same_links(ns: Seq<NodeModel>)
    requires
        links_consistent(ns),
    ensures
        same_links(model_links(first_of_each_uuid(ns)), model_links(ns)),
{
    let f = first_of_each_uuid(ns);
    lemma_first_of_each_uuid(ns);
    assert forall|x: NodeLink| model_links(f).contains(x) <==> model_links(ns).contains(x) by {
        lemma_model_links_contains(f, x);
        lemma_model_links_contains(ns, x);
        if model_links(f).contains(x) {
            let k = choose|k: int| 0 <= k < f.len() && f[k].link == x;
            assert(ns.contains(f[k]));
            let m = choose|m: int| 0 <= m < ns.len() && ns[m] == f[k];
        }
        if model_links(ns).contains(x) {
            let i = choose|i: int| 0 <= i < ns.len() && ns[i].link == x;
            assert(has_uuid(f, ns[i].link.uuid));
            let k = choose|k: int| 0 <= k < f.len() && f[k].link.uuid == ns[i].link.uuid;
            assert(ns.contains(f[k]));
            assert(ns.contains(ns[i]));
        }
    }
}

/// The orphans of a repository do not depend on the order in which its
/// directory lists the files, as long as files that share a UUID agree on
/// its parent (otherwise which of them is kept decides).
pub proof fn lemma_orphans_independent_of_order(a: Seq<(Seq<char>, Seq<u8>)>, b: Seq<(Seq<char>, Seq<u8>)>)
    requires
        a.to_multiset() =~= b.to_multiset(),
        links_consistent(loaded_nodes(a)),
    ensures
        orphan_set(model_links(unique_nodes(a))) == orphan_set(model_links(unique_nodes(b))),
{
    lemma_loaded_links_independent_of_order(a, b);
    let la = loaded_nodes(a);
    let lb = loaded_nodes(b);
    assert(links_consistent(lb));
    lemma_unique_same_links(la);
    lemma_unique_same_links(lb);
    let ua = model_links(unique_nodes(a));
    let ub = model_links(unique_nodes(b));
    assert(same_links(ua, ub));
    crate::fsck::lemma_orphans_same_links(ua, ub);
}

} // verus!

verus! {

/// Of several nodes with one UUID only the first is kept: the nodes kept
/// have distinct UUIDs, each is a node of `ns`, and every UUID of `ns` is
/// among them.
pub proof fn lemma_first_of_each_uuid(ns: Seq<NodeModel>)
    ensures
        uuids_distinct(first_of_each_uuid(ns)),
        forall|k: int| 0 <= k < first_of_each_uuid(ns).len() ==> ns.contains(#[trigger] first_of_each_uuid(ns)[k]),
        forall|i: int| 0 <= i < ns.len() ==> has_uuid(first_of_each_uuid(ns), #[trigger] ns[i].link.uuid),
    decreases ns.len(),
{
    if ns.len() > 0 {
        let p = ns.drop_last();
        lemma_first_of_each_uuid(p);
        let f = first_of_each_uuid(ns);
        let fp = first_of_each_uuid(p);
        assert forall|k: int| 0 <= k < fp.len() implies ns.contains(fp[k]) by {
            let m = choose|m: int| 0 <= m < p.len() && p[m] == fp[k];
            assert(ns[m] == p[m]);
        }
        if has_uuid(p, ns.last().link.uuid) {
            let m = choose|m: int| 0 <= m < p.len() && p[m].link.uuid == ns.last().link.uuid;
            assert(has_uuid(fp, p[m].link.uuid));
            assert forall|i: int| 0 <= i < ns.len() implies has_uuid(f, #[trigger] ns[i].link.uuid) by {
                if i < p.len() {
                    assert(p[i] == ns[i]);
                }
            }
        } else {
            assert(f == fp.push(ns.last()));
            assert forall|k: int| 0 <= k < f.len() implies ns.contains(#[trigger] f[k]) by {
                if k < fp.len() {
                    assert(f[k] == fp[k]);
                } else {
                    assert(ns[ns.len() - 1] == f[k]);
                }
            }
            assert forall|i: int, j: int| 0 <= i < j < f.len() implies f[i].link.uuid != f[j].link.uuid by {
                if j == f.len() - 1 {
                    assert(f[i] == fp[i]);
                    let m = choose|m: int| 0 <= m < p.len() && p[m] == fp[i];
                } else {
                    assert(f[i] == fp[i] && f[j] == fp[j]);
                }
            }
            assert forall|i: int| 0 <= i < ns.len() implies has_uuid(f, #[trigger] ns[i].link.uuid) by {
                if i < p.len() {
                    assert(p[i] == ns[i]);
                    let k = choose|k: int| 0 <= k < fp.len() && fp[k].link.uuid == p[i].link.uuid;
                    assert(f[k] == fp[k]);
                } else {
                    assert(f[fp.len() as int] == ns[i]);
                }
            }
        }
    }
}

/// Taking nodes out keeps the UUIDs distinct.
pub proof fn lemma_without_uuids_distinct(ns: Seq<NodeModel>, drop: Set<u128>)
    requires
        uuids_distinct(ns),
    ensures
        uuids_distinct(without_uuids(ns, drop)),
        forall|k: int| 0 <= k < without_uuids(ns, drop).len() ==> ns.contains(#[trigger] without_uuids(ns, drop)[k]),
    decreases ns.len(),
{
    if ns.len() > 0 {
        let p = ns.drop_last();
        assert(uuids_distinct(p)) by {
            assert forall|i: int, j: int| 0 <= i < j < p.len() implies p[i].link.uuid != p[j].link.uuid by {
                assert(p[i] == ns[i] && p[j] == ns[j]);
            }
        }
        lemma_without_uuids_distinct(p, drop);
        let w = without_uuids(ns, drop);
        let wp = without_uuids(p, drop);
        assert forall|k: int| 0 <= k < wp.len() implies ns.contains(wp[k]) by {
            let m = choose|m: int| 0 <= m < p.len() && p[m] == wp[k];
            assert(ns[m] == p[m]);
        }
        if !drop.contains(ns.last().link.uuid) {
            assert(w == wp.push(ns.last()));
            assert forall|k: int| 0 <= k < w.len() implies ns.contains(#[trigger] w[k]) by {
                if k < wp.len() {
                    assert(w[k] == wp[k]);
                } else {
                    assert(ns[ns.len() - 1] == w[k]);
                }
            }
            assert forall|i: int, j: int| 0 <= i < j < w.len() implies w[i].link.uuid != w[j].link.uuid by {
                if j == w.len() - 1 {
                    assert(w[i] == wp[i]);
                    let m = choose|m: int| 0 <= m < p.len() && p[m] == wp[i];
                    assert(ns[m] == p[m]);
                } else {
                    assert(w[i] == wp[i] && w[j] == wp[j]);
                }
            }
        }
    }
}

} // verus!

verus! {

/// In a loaded repository a full backup is never an orphan.
pub proof fn lemma_loaded_full_never_orphan(files: Seq<(Seq<char>, Seq<u8>)>, i: int)
    requires
        0 <= i < unique_nodes(files).len(),
        unique_nodes(files)[i].link.parent is None,
    ensures
        !orphan_set(model_links(unique_nodes(files))).contains(unique_nodes(files)[i].link.uuid),
{
    let ns = unique_nodes(files);
    lemma_first_of_each_uuid(loaded_nodes(files));
    let ls = model_links(ns);
    assert forall|a: int, b: int| 0 <= a < ls.len() && 0 <= b < ls.len() && ls[a].uuid == ls[b].uuid implies a == b by {
        if a < b {
            assert(ns[a].link.uuid != ns[b].link.uuid);
        } else if b < a {
            assert(ns[b].link.uuid != ns[a].link.uuid);
        }
    }
    crate::fsck::lemma_full_never_orphan(ls, i);
}

} // verus!

verus! {

/// The paths of the nodes whose UUID is in `orphans`, in node order.
pub open spec fn orphan_paths_spec(nodes: Seq<BackupNode>, orphans: Set<u128>) -> Seq<Seq<char>>
    decreases nodes.len(),
{
    if nodes.len() == 0 {
        Seq::empty()
    } else {
        let prev = orphan_paths_spec(nodes.drop_last(), orphans);
        if orphans.contains(nodes.last().uuid) {
            prev.push(nodes.last().path@)
        } else {
            prev
        }
    }
}

/// The paths of the nodes whose UUID is in `orphans`, in node order: each
/// orphaned file, as fsck reports it.
pub fn orphan_paths(nodes: &[BackupNode], orphans: &HashSet<u128>) -> (r: Vec<String>)
    ensures
        r@.map_values(|p: String| p@) == orphan_paths_spec(nodes@, orphans@),
{
    let mut out: Vec<String> = Vec::new();
    let mut i: usize = 0;
    while i < nodes.len()
        invariant
            i <= nodes@.len(),
            out@.map_values(|p: String| p@) == orphan_paths_spec(nodes@.subrange(0, i as int), orphans@),
        decreases nodes@.len() - i,
    {
        assert(nodes@.subrange(0, i + 1).drop_last() =~= nodes@.subrange(0, i as int));
        let ghost before = out@;
        if orphans.contains(&nodes[i].uuid) {
            let p = nodes[i].path.clone();
            out.push(p);
            assert(out@.map_values(|p: String| p@) =~= before.map_values(|p: String| p@).push(nodes@[i as int].path@));
        }
        i = i + 1;
    }
    assert(nodes@.subrange(0, nodes@.len() as int) =~= nodes@);
    out
}

} // verus!
