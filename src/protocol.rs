//! The repository protocol over a byte channel, without the channel: the
//! session takes the bytes that arrived and gives the bytes to send, and
//! tells the caller when a request needs outside work (an upload, the graph).
use vstd::prelude::*;
use crate::bytes::{
    ByteReader, be32_at, be32_bytes, be64_at, push_be32, push_all, push_uuid, read_be32, read_be64,
    read_uuid, be128_of, uuid_bytes,
};
use crate::repository::{BackupNode, BackupNodeKind, Repository};
use crate::btrfs::ReadErrorKind;

verus! {

/// The eight bytes a client opens the session with.
pub open spec fn magic_request() -> Seq<u8> {
    seq![0xa8u8, 0x5bu8, 0x4bu8, 0x2bu8, 0x1bu8, 0x75u8, 0x4cu8, 0x0au8]
}

/// The eight bytes the server answers a valid opening with.
pub open spec fn magic_response() -> Seq<u8> {
    seq![0xfbu8, 0x70u8, 0x4cu8, 0x63u8, 0x41u8, 0x1du8, 0x9cu8, 0x0au8]
}

fn magic_request_bytes() -> (r: Vec<u8>)
    ensures
        r@ == magic_request(),
{
    let r = vec![0xa8u8, 0x5bu8, 0x4bu8, 0x2bu8, 0x1bu8, 0x75u8, 0x4cu8, 0x0au8];
    assert(r@ =~= magic_request());
    r
}

fn magic_response_bytes() -> (r: Vec<u8>)
    ensures
        r@ == magic_response(),
{
    let r = vec![0xfbu8, 0x70u8, 0x4cu8, 0x63u8, 0x41u8, 0x1du8, 0x9cu8, 0x0au8];
    assert(r@ =~= magic_response());
    r
}

#[derive(Clone, Copy, Debug, PartialEq, Eq, Structural)]
pub enum ProtocolCommand {
    Quit,
    FindNodes,
    ListNodes,
    UploadArchive,
    GetGraph,
}

/// The request an opcode names, if any.
pub open spec fn command_of_opcode(op: u64) -> Option<ProtocolCommand> {
    if op == 0 {
        Some(ProtocolCommand::Quit)
    } else if op == 1 {
        Some(ProtocolCommand::FindNodes)
    } else if op == 2 {
        Some(ProtocolCommand::ListNodes)
    } else if op == 3 {
        Some(ProtocolCommand::UploadArchive)
    } else if op == 4 {
        Some(ProtocolCommand::GetGraph)
    } else {
        None
    }
}

impl ProtocolCommand {
    /// The request an opcode names, if any.
    pub fn from_u64(op: u64) -> (r: Option<ProtocolCommand>)
        ensures
            r == command_of_opcode(op),
    {
        if op == 0 {
            Some(ProtocolCommand::Quit)
        } else if op == 1 {
            Some(ProtocolCommand::FindNodes)
        } else if op == 2 {
            Some(ProtocolCommand::ListNodes)
        } else if op == 3 {
            Some(ProtocolCommand::UploadArchive)
        } else if op == 4 {
            Some(ProtocolCommand::GetGraph)
        } else {
            None
        }
    }
}

/// The UUIDs of a list reply, each as `01` and its sixteen bytes.
pub open spec fn uuid_items(us: Seq<u128>) -> Seq<u8>
    decreases us.len(),
{
    if us.len() == 0 {
        Seq::empty()
    } else {
        uuid_items(us.drop_last()) + seq![1u8] + uuid_bytes(us.last())
    }
}

/// A list reply: the items, then `00`.
pub open spec fn uuid_list_reply(us: Seq<u128>) -> Seq<u8> {
    uuid_items(us) + seq![0u8]
}

/// The UUIDs of `want` that are also in `have`, each once, in the order of
/// their first place in `want`.
pub open spec fn common_uuids(want: Seq<u128>, have: Seq<u128>) -> Seq<u128>
    decreases want.len(),
{
    if want.len() == 0 {
        Seq::empty()
    } else {
        let prev = common_uuids(want.drop_last(), have);
        let u = want.last();
        if have.contains(u) && !want.drop_last().contains(u) {
            prev.push(u)
        } else {
            prev
        }
    }
}

/// The reply to an upload: `01` and the new object's UUID, or `00`.
pub open spec fn upload_reply(stored: Option<u128>) -> Seq<u8> {
    match stored {
        Some(u) => seq![1u8] + uuid_bytes(u),
        None => seq![0u8],
    }
}

/// The UUIDs a FindNodes request lists after its opcode: a big-endian
/// `u32` count, then that many UUIDs, with the bytes they take; `None`
/// while they have not all arrived.
pub open spec fn parent_list_spec(s: Seq<u8>) -> Option<(Seq<u128>, nat)> {
    if s.len() < 4 {
        None
    } else if s.len() < 4 + 16 * (be32_at(s, 0) as int) {
        None
    } else {
        Some(
            (
                Seq::new(be32_at(s, 0) as nat, |i: int| be128_of(s.subrange(4 + 16 * i, 4 + 16 * i + 16))),
                (4 + 16 * (be32_at(s, 0) as int)) as nat,
            ),
        )
    }
}

/// Appends `01` and the UUID for each of `us`.
fn push_uuid_items(out: &mut Vec<u8>, us: &Vec<u128>)
    ensures
        final(out)@ == old(out)@ + uuid_items(us@),
{
    let ghost start = out@;
    let mut i: usize = 0;
    while i < us.len()
        invariant
            i <= us@.len(),
            out@ == start + uuid_items(us@.subrange(0, i as int)),
        decreases us@.len() - i,
    {
        assert(us@.subrange(0, i + 1).drop_last() =~= us@.subrange(0, i as int));
        out.push(1u8);
        push_uuid(out, us[i]);
        i = i + 1;
        assert(out@ =~= start + uuid_items(us@.subrange(0, i as int)));
    }
    assert(us@.subrange(0, us@.len() as int) =~= us@);
}

/// The UUIDs of `want` also in `have`, each once, in order.
fn find_common(want: &Vec<u128>, have: &Vec<u128>) -> (r: Vec<u128>)
    ensures
        r@ == common_uuids(want@, have@),
{
    let mut out: Vec<u128> = Vec::new();
    let mut i: usize = 0;
    while i < want.len()
        invariant
            i <= want@.len(),
            out@ == common_uuids(want@.subrange(0, i as int), have@),
        decreases want@.len() - i,
    {
        let ghost prefix = want@.subrange(0, i as int);
        assert(want@.subrange(0, i + 1).drop_last() =~= prefix);
        let u = want[i];
        let mut in_have = false;
        let mut k: usize = 0;
        while k < have.len()
            invariant
                k <= have@.len(),
                in_have == exists|m: int| 0 <= m < k && have@[m] == u,
            decreases have@.len() - k,
        {
            if have[k] == u {
                in_have = true;
            }
            k = k + 1;
        }
        let mut seen = false;
        let mut k: usize = 0;
        while k < i
            invariant
                k <= i,
                i < want@.len(),
                seen == exists|m: int| 0 <= m < k && want@[m] == u,
            decreases i - k,
        {
            if want[k] == u {
                seen = true;
            }
            k = k + 1;
        }
        proof {
            if seen {
                let m = choose|m: int| 0 <= m < i && want@[m] == u;
                assert(prefix[m] == u);
            }
            if prefix.contains(u) {
                let m = choose|m: int| 0 <= m < prefix.len() && prefix[m] == u;
                assert(want@[m] == u);
            }
        }
        if in_have && !seen {
            out.push(u);
        }
        i = i + 1;
    }
    assert(want@.subrange(0, want@.len() as int) =~= want@);
    out
}

/// What the caller does next for the session.
#[derive(Clone, Copy, Debug, PartialEq, Eq, Structural)]
pub enum ServerEvent {
    /// More bytes must arrive before the next request can be served.
    NeedMore,
    /// A request was served; its reply is in the output.
    Replied,
    /// An upload follows: the caller stores the archive from the channel and
    /// reports the outcome with `finish_upload`.
    Upload,
    /// The caller encodes the repository graph and sends it with `send_graph`.
    Graph,
    /// The client asked to end the session.
    Closed,
    /// An unknown opcode: the session ends.
    Invalid,
}

/// What serving the request at the start of `s` gives, where `nodes` are
/// the repository's UUIDs in order: the event, the bytes taken and the reply.
pub open spec fn serve_spec(s: Seq<u8>, nodes: Seq<u128>) -> (ServerEvent, nat, Seq<u8>) {
    if s.len() < 8 {
        (ServerEvent::NeedMore, 0, Seq::empty())
    } else {
        match command_of_opcode(be64_at(s, 0)) {
            None => (ServerEvent::Invalid, 8, Seq::empty()),
            Some(ProtocolCommand::Quit) => (ServerEvent::Closed, 8, Seq::empty()),
            Some(ProtocolCommand::FindNodes) => match parent_list_spec(s.subrange(8, s.len() as int)) {
                None => (ServerEvent::NeedMore, 0, Seq::empty()),
                Some((want, n)) => (ServerEvent::Replied, 8 + n, uuid_list_reply(common_uuids(want, nodes))),
            },
            Some(ProtocolCommand::ListNodes) => (ServerEvent::Replied, 8, uuid_list_reply(nodes)),
            Some(ProtocolCommand::UploadArchive) => (ServerEvent::Upload, 8, Seq::empty()),
            Some(ProtocolCommand::GetGraph) => (ServerEvent::Graph, 8, Seq::empty()),
        }
    }
}

/// One session of the server: bytes in, bytes out.
pub struct ProtocolServer {
    pub input: ByteReader,
    pub output: Vec<u8>,
    pub greeted: bool,
    pub closed: bool,
}

impl ProtocolServer {
    /// A session that has received nothing yet.
    pub fn new() -> (r: ProtocolServer)
        ensures
            r.input@.len() == 0,
            r.output@.len() == 0,
            !r.greeted,
            !r.closed,
    {
        let empty: Vec<u8> = Vec::new();
        ProtocolServer { input: ByteReader::from_vec(empty), output: Vec::new(), greeted: false, closed: false }
    }

    /// Bytes that arrived from the client.
    pub fn feed(&mut self, bytes: &[u8])
        ensures
            final(self).input@ == old(self).input@ + bytes@,
            final(self).output == old(self).output,
            final(self).greeted == old(self).greeted,
            final(self).closed == old(self).closed,
    {
        self.input.feed(bytes);
    }

    /// Reads the client's opening magic: whether its eight bytes are the
    /// request magic. It writes nothing; with fewer than eight bytes it is
    /// the end of the input, and nothing is consumed.
    pub fn read_magic(&mut self) -> (r: Result<bool, ReadErrorKind>)
        ensures
            old(self).input@.len() < 8 ==> r == Err::<bool, ReadErrorKind>(ReadErrorKind::EndOfFile) && *final(self)
                == *old(self),
            old(self).input@.len() >= 8 ==> {
                &&& r == Ok::<bool, ReadErrorKind>(old(self).input@.subrange(0, 8) == magic_request())
                &&& final(self).input@ == old(self).input@.subrange(8, old(self).input@.len() as int)
                &&& final(self).output == old(self).output
                &&& final(self).greeted == old(self).greeted
                &&& final(self).closed == old(self).closed
            },
    {
        if self.input.len() < 8 {
            return Err(ReadErrorKind::EndOfFile);
        }
        let s = self.input.peek();
        let magic = magic_request_bytes();
        let mut valid = true;
        let mut i: usize = 0;
        assert(s@.subrange(0, 0) =~= magic@.subrange(0, 0));
        while i < 8
            invariant
                i <= 8,
                s@.len() >= 8,
                magic@ == magic_request(),
                valid == (s@.subrange(0, i as int) == magic@.subrange(0, i as int)),
            decreases 8 - i,
        {
            if s[i] != magic[i] {
                assert(s@.subrange(0, i + 1)[i as int] != magic@.subrange(0, i + 1)[i as int]);
                valid = false;
            } else if valid {
                assert(s@.subrange(0, i + 1) =~= magic@.subrange(0, i + 1));
            }
            if !valid {
                assert(s@.subrange(0, i + 1).subrange(0, i as int) =~= s@.subrange(0, i as int));
                assert(magic@.subrange(0, i + 1).subrange(0, i as int) =~= magic@.subrange(0, i as int));
            }
            i = i + 1;
        }
        assert(magic@.subrange(0, 8) =~= magic_request());
        self.input.advance(8);
        Ok(valid)
    }

    /// Answers a valid opening: queues the server's magic and marks the
    /// session open for requests.
    pub fn send_magic(&mut self)
        ensures
            final(self).output@ == old(self).output@ + magic_response(),
            final(self).input@ == old(self).input@,
            final(self).greeted,
            final(self).closed == old(self).closed,
    {
        let resp = magic_response_bytes();
        push_all(&mut self.output, resp.as_slice());
        self.greeted = true;
    }

    /// Reads the UUID list of a FindNodes request: `None`, with nothing
    /// consumed, until it has all arrived.
    pub fn read_parent_list(&mut self) -> (r: Option<Vec<u128>>)
        ensures
            match parent_list_spec(old(self).input@) {
                None => r is None && *final(self) == *old(self),
                Some((want, n)) => r matches Some(v) && v@ == want && final(self).input@ == old(self).input@.subrange(
                    n as int,
                    old(self).input@.len() as int,
                ) && final(self).output == old(self).output && final(self).greeted == old(self).greeted
                    && final(self).closed == old(self).closed,
            },
    {
        let s = self.input.peek();
        assert(s@.subrange(0, s@.len() as int) =~= s@);
        match parse_parent_list(s, 0) {
            None => None,
            Some((v, n)) => {
                self.input.advance(n);
                Some(v)
            },
        }
    }

    /// Serves the request at the start of the input, where `repo` is the
    /// repository: consumes it and queues its reply, or says what the
    /// caller must do; consumes nothing while the request is incomplete.
    pub fn serve(&mut self, repo: &Repository) -> (r: ServerEvent)
        ensures
            ({
                let (ev, n, reply) = serve_spec(old(self).input@, node_uuids_spec(repo.nodes@));
                &&& r == ev
                &&& final(self).input@ == old(self).input@.subrange(n as int, old(self).input@.len() as int)
                &&& final(self).output@ == old(self).output@ + reply
                &&& final(self).greeted == old(self).greeted
                &&& final(self).closed == (old(self).closed || ev == ServerEvent::Closed || ev == ServerEvent::Invalid)
            }),
    {
        let ghost s0 = self.input@;
        let s = self.input.peek();
        if s.len() < 8 {
            assert(s0.subrange(0, s0.len() as int) =~= s0);
            return ServerEvent::NeedMore;
        }
        let op = read_be64(s, 0);
        match ProtocolCommand::from_u64(op) {
            None => {
                self.input.advance(8);
                self.closed = true;
                ServerEvent::Invalid
            },
            Some(ProtocolCommand::Quit) => {
                self.input.advance(8);
                self.closed = true;
                ServerEvent::Closed
            },
            Some(ProtocolCommand::FindNodes) => {
                match parse_parent_list(s, 8) {
                    None => {
                        assert(s0.subrange(0, s0.len() as int) =~= s0);
                        ServerEvent::NeedMore
                    },
                    Some((want, n)) => {
                        let have = node_uuids(repo);
                        let common = find_common(&want, &have);
                        push_uuid_items(&mut self.output, &common);
                        self.output.push(0u8);
                        self.input.advance(8 + n);
                        ServerEvent::Replied
                    },
                }
            },
            Some(ProtocolCommand::ListNodes) => {
                let have = node_uuids(repo);
                push_uuid_items(&mut self.output, &have);
                self.output.push(0u8);
                self.input.advance(8);
                ServerEvent::Replied
            },
            Some(ProtocolCommand::UploadArchive) => {
                self.input.advance(8);
                ServerEvent::Upload
            },
            Some(ProtocolCommand::GetGraph) => {
                self.input.advance(8);
                ServerEvent::Graph
            },
        }
    }

    /// Queues the reply to an upload: the new object's UUID when it was
    /// stored, `00` when it was rolled back.
    pub fn finish_upload(&mut self, stored: Option<u128>)
        ensures
            final(self).output@ == old(self).output@ + upload_reply(stored),
            final(self).input@ == old(self).input@,
            final(self).greeted == old(self).greeted,
            final(self).closed == old(self).closed,
    {
        match stored {
            Some(u) => {
                self.output.push(1u8);
                push_uuid(&mut self.output, u);
                assert(self.output@ =~= old(self).output@ + upload_reply(stored));
            },
            None => {
                self.output.push(0u8);
                assert(self.output@ =~= old(self).output@ + upload_reply(stored));
            },
        }
    }

    /// Queues the encoded graph: its length as a big-endian `u32`, then the
    /// bytes.
    pub fn send_graph(&mut self, encoded: &[u8])
        requires
            encoded@.len() <= u32::MAX,
        ensures
            final(self).output@ == old(self).output@ + be32_bytes(encoded@.len() as u32) + encoded@,
            final(self).input@ == old(self).input@,
            final(self).greeted == old(self).greeted,
            final(self).closed == old(self).closed,
    {
        push_be32(&mut self.output, encoded.len() as u32);
        push_all(&mut self.output, encoded);
    }

    /// Hands over the queued output, leaving none.
    pub fn take_output(&mut self) -> (r: Vec<u8>)
        ensures
            r@ == old(self).output@,
            final(self).output@.len() == 0,
            final(self).input@ == old(self).input@,
            final(self).greeted == old(self).greeted,
            final(self).closed == old(self).closed,
    {
        let r = vstd::slice::slice_to_vec(self.output.as_slice());
        self.output = Vec::new();
        r
    }

    /// Hands over the bytes received but not consumed (the start of an
    /// upload), leaving none.
    pub fn take_input(&mut self) -> (r: Vec<u8>)
        ensures
            r@ == old(self).input@,
            final(self).input@.len() == 0,
            final(self).output == old(self).output,
            final(self).greeted == old(self).greeted,
            final(self).closed == old(self).closed,
    {
        let r = vstd::slice::slice_to_vec(self.input.peek());
        let empty: Vec<u8> = Vec::new();
        self.input = ByteReader::from_vec(empty);
        r
    }
}

/// The UUIDs of a repository's nodes, in order.
pub open spec fn node_uuids_spec(nodes: Seq<BackupNode>) -> Seq<u128> {
    nodes.map_values(|n: BackupNode| n.uuid)
}

fn node_uuids(repo: &Repository) -> (r: Vec<u128>)
    ensures
        r@ == node_uuids_spec(repo.nodes@),
{
    let mut out: Vec<u128> = Vec::new();
    let mut i: usize = 0;
    while i < repo.nodes.len()
        invariant
            i <= repo.nodes@.len(),
            out@ == node_uuids_spec(repo.nodes@).subrange(0, i as int),
        decreases repo.nodes@.len() - i,
    {
        out.push(repo.nodes[i].uuid);
        i = i + 1;
        assert(out@ =~= node_uuids_spec(repo.nodes@).subrange(0, i as int));
    }
    assert(node_uuids_spec(repo.nodes@).subrange(0, repo.nodes@.len() as int) =~= node_uuids_spec(repo.nodes@));
    out
}

/// Reads the UUID list at `s[at..]`: the UUIDs and the bytes they take.
fn parse_parent_list(s: &[u8], at: usize) -> (r: Option<(Vec<u128>, usize)>)
    requires
        at <= s@.len(),
    ensures
        match parent_list_spec(s@.subrange(at as int, s@.len() as int)) {
            None => r is None,
            Some((want, n)) => r matches Some((v, m)) && v@ == want && m == n && at + n <= s@.len(),
        },
{
    let ghost t = s@.subrange(at as int, s@.len() as int);
    let slen = s.len();
    if slen - at < 4 {
        return None;
    }
    let count = read_be32(s, at);
    assert(be32_at(t, 0) == count);
    if ((slen - at - 4) as u64) < 16 * (count as u64) {
        return None;
    }
    let mut out: Vec<u128> = Vec::new();
    let mut i: usize = 0;
    let ghost want = parent_list_spec(t).unwrap().0;
    while i < count as usize
        invariant
            i <= count,
            at + 4 + 16 * (count as int) <= slen,
            slen == s@.len(),
            t == s@.subrange(at as int, s@.len() as int),
            count == be32_at(t, 0),
            want == parent_list_spec(t).unwrap().0,
            out@ == want.subrange(0, i as int),
        decreases count - i,
    {
        let u = read_uuid(s, at + 4 + 16 * i);
        assert(s@.subrange(at + 4 + 16 * i, at + 4 + 16 * i + 16) =~= t.subrange(4 + 16 * i, 4 + 16 * i + 16));
        out.push(u);
        i = i + 1;
        assert(out@ =~= want.subrange(0, i as int));
    }
    assert(want.subrange(0, count as int) =~= want);
    Some((out, 4 + 16 * count as usize))
}

} // verus!

verus! {

/// One backup in the graph: the file's size, the backup it was taken
/// against (none for a full backup), and the backup itself.
pub struct Edge {
    pub size: u64,
    pub from_node: Option<u128>,
    pub to_node: u128,
}

pub struct Graph {
    pub edges: Vec<Edge>,
}

/// The edge that a node gives, with its file's size.
pub open spec fn edge_spec(n: BackupNode, size: u64) -> (u64, Option<u128>, u128) {
    match n.kind {
        BackupNodeKind::FullBackup(v) => (size, None, v.uuid),
        BackupNodeKind::IncrementalBackup(v) => (size, Some(v.clone_uuid), v.uuid),
    }
}

impl Graph {
    /// A graph without edges.
    pub fn new() -> (r: Graph)
        ensures
            r.edges@.len() == 0,
    {
        Graph { edges: Vec::new() }
    }

    /// One edge per node, in order: from the clone source of an incremental
    /// backup (from nothing for a full one) to the backup; `sizes` holds the
    /// size of each node's file.
    pub fn from_nodes(nodes: &[BackupNode], sizes: &[u64]) -> (r: Graph)
        requires
            sizes@.len() == nodes@.len(),
        ensures
            r.edges@.len() == nodes@.len(),
            forall|i: int| 0 <= i < nodes@.len() ==> ((#[trigger] r.edges@[i]).size, r.edges@[i].from_node, r.edges@[i].to_node)
                == edge_spec(nodes@[i], sizes@[i]),
    {
        let mut graph = Graph::new();
        let mut i: usize = 0;
        while i < nodes.len()
            invariant
                i <= nodes@.len(),
                sizes@.len() == nodes@.len(),
                graph.edges@.len() == i,
                forall|k: int| 0 <= k < i ==> ((#[trigger] graph.edges@[k]).size, graph.edges@[k].from_node, graph.edges@[k].to_node)
                    == edge_spec(nodes@[k], sizes@[k]),
            decreases nodes@.len() - i,
        {
            let edge = match &nodes[i].kind {
                BackupNodeKind::FullBackup(v) => Edge { size: sizes[i], from_node: None, to_node: v.uuid },
                BackupNodeKind::IncrementalBackup(v) => Edge {
                    size: sizes[i],
                    from_node: Some(v.clone_uuid),
                    to_node: v.uuid,
                },
            };
            graph.edges.push(edge);
            i = i + 1;
        }
        graph
    }
}

/// The client's side of a session: it takes the bytes the server sent.
pub struct ProtocolClient {
    pub input: ByteReader,
}

impl ProtocolClient {
    /// A client that has received nothing yet.
    pub fn new() -> (r: ProtocolClient)
        ensures
            r.input@.len() == 0,
    {
        let empty: Vec<u8> = Vec::new();
        ProtocolClient { input: ByteReader::from_vec(empty) }
    }

    /// Bytes that arrived from the server.
    pub fn feed(&mut self, bytes: &[u8])
        ensures
            final(self).input@ == old(self).input@ + bytes@,
    {
        self.input.feed(bytes);
    }

    /// The encoded graph of a GetGraph reply: a big-endian `u32` length and
    /// that many bytes. `None`, with nothing consumed, until all have arrived.
    pub fn read_graph_bytes(&mut self) -> (r: Option<Vec<u8>>)
        ensures
            old(self).input@.len() < 4 || old(self).input@.len() < 4 + be32_at(old(self).input@, 0) ==> r is None
                && final(self).input@ == old(self).input@,
            old(self).input@.len() >= 4 && old(self).input@.len() >= 4 + be32_at(old(self).input@, 0) ==> {
                let n = be32_at(old(self).input@, 0) as int;
                &&& r matches Some(v) && v@ == old(self).input@.subrange(4, 4 + n)
                &&& final(self).input@ == old(self).input@.subrange(4 + n, old(self).input@.len() as int)
            },
    {
        let s = self.input.peek();
        if s.len() < 4 {
            return None;
        }
        let n = read_be32(s, 0);
        if ((s.len() - 4) as u64) < n as u64 {
            return None;
        }
        let bytes = vstd::slice::slice_to_vec(vstd::slice::slice_subrange(s, 4, 4 + n as usize));
        self.input.advance(4 + n as usize);
        Some(bytes)
    }
}

} // verus!
