//! Joining a chain of send streams into one: the head stream's SUBVOL,
//! renamed after the tail's snapshot, then every stream's commands with the
//! SNAPSHOTs and all but the last END left out, and the chain checked at
//! each stream boundary.
use vstd::prelude::*;
use crate::bytes::le16_at;
use crate::btrfs::{
    BtrfsCommandBuf, BtrfsCommandType, BtrfsParseError, command_bytes, eof_error, frame_wf, kind_code,
    kind_of_code,
};
use crate::payload::{
    BtrfsSnapshot, BtrfsSubvol, SubvolModel, command_for, snapshot_spec, subvol_payload, subvol_spec,
};

verus! {

#[derive(Clone, Copy, Debug, PartialEq, Eq, Structural)]
pub enum BtrfsConcatError {
    /// The streams are not in chain order: the last one does not start with
    /// a SNAPSHOT, or a second SUBVOL appears once the chain has begun.
    InvalidOrder,
    /// Fewer than two streams were given.
    TooFewStreams,
    /// A SNAPSHOT was not taken from the snapshot or subvolume that precedes it.
    ChainBreak,
    /// A frame or payload did not read.
    ParseError(BtrfsParseError),
}

/// What the engine remembers between frames.
pub struct ConcatState {
    /// The name the output's SUBVOL takes, until that SUBVOL has passed.
    pub adopted: Option<Seq<u8>>,
    /// The UUID that the next SNAPSHOT must have been cloned from.
    pub curr: Option<u128>,
    /// The last stream is still waiting: its END is not yet the output's.
    pub last_pending: bool,
}

/// The payload of a frame.
pub open spec fn frame_payload(f: Seq<u8>) -> Seq<u8> {
    f.subrange(10, f.len() as int)
}

pub open spec fn frame_kind(f: Seq<u8>) -> Option<BtrfsCommandType> {
    kind_of_code(le16_at(f, 4))
}

/// The frame of a SUBVOL command carrying `v`, CRC included.
pub open spec fn subvol_frame(v: SubvolModel) -> Seq<u8> {
    command_bytes(command_for(BtrfsCommandType::BTRFS_SEND_C_SUBVOL, subvol_payload(v)))
}

/// The chain check on one frame: the UUID that is current after it.
pub open spec fn validate_spec(st: ConcatState, f: Seq<u8>) -> Result<Option<u128>, BtrfsConcatError> {
    if frame_kind(f) == Some(BtrfsCommandType::BTRFS_SEND_C_SUBVOL) {
        if st.curr is Some {
            Err(BtrfsConcatError::InvalidOrder)
        } else {
            match subvol_spec(frame_payload(f)) {
                Err(e) => Err(BtrfsConcatError::ParseError(e)),
                Ok((v, _)) => Ok(Some(v.uuid)),
            }
        }
    } else if frame_kind(f) == Some(BtrfsCommandType::BTRFS_SEND_C_SNAPSHOT) {
        match snapshot_spec(frame_payload(f)) {
            Err(e) => Err(BtrfsConcatError::ParseError(e)),
            Ok((v, _)) => if st.curr != Some(v.clone_uuid) {
                Err(BtrfsConcatError::ChainBreak)
            } else {
                Ok(Some(v.uuid))
            },
        }
    } else {
        Ok(st.curr)
    }
}

/// Whether a frame is left out of the output: every SNAPSHOT, and an END
/// while the last stream is still waiting.
pub open spec fn suppressed(st: ConcatState, f: Seq<u8>) -> bool {
    (frame_kind(f) == Some(BtrfsCommandType::BTRFS_SEND_C_END) && st.last_pending) || frame_kind(f)
        == Some(BtrfsCommandType::BTRFS_SEND_C_SNAPSHOT)
}

/// One frame through the engine: the state after it, and what is emitted.
#[verifier::opaque]
pub open spec fn concat_step(st: ConcatState, f: Seq<u8>) -> Result<(ConcatState, Option<Seq<u8>>), BtrfsConcatError> {
    match validate_spec(st, f) {
        Err(e) => Err(e),
        Ok(curr) => {
            let st1 = ConcatState { curr, ..st };
            if suppressed(st, f) {
                Ok((st1, None))
            } else if st.adopted is Some && frame_kind(f) == Some(BtrfsCommandType::BTRFS_SEND_C_SUBVOL) {
                let v = subvol_spec(frame_payload(f)).unwrap().0;
                Ok(
                    (
                        ConcatState { adopted: None, ..st1 },
                        Some(subvol_frame(SubvolModel { name: st.adopted.unwrap(), ..v })),
                    ),
                )
            } else {
                Ok((st1, Some(f)))
            }
        },
    }
}

pub open spec fn emitted(o: Option<Seq<u8>>) -> Seq<Seq<u8>> {
    match o {
        Some(f) => seq![f],
        None => Seq::empty(),
    }
}

/// The frames `fs` through the engine, in order, from state `st`.
pub open spec fn concat_run(st: ConcatState, fs: Seq<Seq<u8>>) -> Result<(ConcatState, Seq<Seq<u8>>), BtrfsConcatError>
    decreases fs.len(),
{
    if fs.len() == 0 {
        Ok((st, Seq::empty()))
    } else {
        match concat_run(st, fs.drop_last()) {
            Err(e) => Err(e),
            Ok((st1, out)) => match concat_step(st1, fs.last()) {
                Err(e) => Err(e),
                Ok((st2, o)) => Ok((st2, out + emitted(o))),
            },
        }
    }
}

/// The streams `ss` through the engine, one after another.
pub open spec fn concat_run_streams(st: ConcatState, ss: Seq<Seq<Seq<u8>>>) -> Result<(ConcatState, Seq<Seq<u8>>), BtrfsConcatError>
    decreases ss.len(),
{
    if ss.len() == 0 {
        Ok((st, Seq::empty()))
    } else {
        match concat_run_streams(st, ss.drop_last()) {
            Err(e) => Err(e),
            Ok((st1, out)) => match concat_run(st1, ss.last()) {
                Err(e) => Err(e),
                Ok((st2, o)) => Ok((st2, out + o)),
            },
        }
    }
}

/// The state the engine starts in, from the first frame of the last stream:
/// that frame must be a SNAPSHOT, whose name the output's SUBVOL takes.
pub open spec fn concat_start(last_head: Seq<u8>) -> Result<ConcatState, BtrfsConcatError> {
    if frame_kind(last_head) != Some(BtrfsCommandType::BTRFS_SEND_C_SNAPSHOT) {
        Err(BtrfsConcatError::InvalidOrder)
    } else {
        match snapshot_spec(frame_payload(last_head)) {
            Err(e) => Err(BtrfsConcatError::ParseError(e)),
            Ok((v, _)) => Ok(ConcatState { adopted: Some(v.name), curr: None, last_pending: true }),
        }
    }
}

/// The frames of the joined stream, from the frames of each stream (headers
/// left off): all streams but the last, then the last one from its first
/// frame, which is checked against the chain once the others have passed.
pub open spec fn concat_spec(ss: Seq<Seq<Seq<u8>>>) -> Result<Seq<Seq<u8>>, BtrfsConcatError> {
    if ss.len() < 2 {
        Err(BtrfsConcatError::TooFewStreams)
    } else if ss.last().len() == 0 {
        Err(BtrfsConcatError::ParseError(eof_error()))
    } else {
        match concat_start(ss.last()[0]) {
            Err(e) => Err(e),
            Ok(st0) => match concat_run_streams(st0, ss.drop_last()) {
                Err(e) => Err(e),
                Ok((st1, o1)) => match concat_run(ConcatState { last_pending: false, ..st1 }, ss.last()) {
                    Err(e) => Err(e),
                    Ok((_, o2)) => Ok(o1 + o2),
                },
            },
        }
    }
}

} // verus!

verus! {

/// The chain check on one frame, from the UUID `curr`: the UUID current
/// after it.
fn validate_frame(curr: Option<u128>, command: &BtrfsCommandBuf) -> (r: Result<Option<u128>, BtrfsConcatError>)
    requires
        command.wf(),
    ensures
        forall|st: ConcatState| st.curr == curr ==> validate_spec(st, command.0@) == r,
{
    let kind = command.get_kind();
    if kind == Some(BtrfsCommandType::BTRFS_SEND_C_SUBVOL) {
        if curr.is_some() {
            return Err(BtrfsConcatError::InvalidOrder);
        }
        match BtrfsSubvol::load(command.get_data()) {
            Ok(subvol) => Ok(Some(subvol.uuid)),
            Err(e) => Err(BtrfsConcatError::ParseError(e)),
        }
    } else if kind == Some(BtrfsCommandType::BTRFS_SEND_C_SNAPSHOT) {
        match BtrfsSnapshot::load(command.get_data()) {
            Ok(snap) => {
                if curr != Some(snap.clone_uuid) {
                    return Err(BtrfsConcatError::ChainBreak);
                }
                Ok(Some(snap.uuid))
            },
            Err(e) => Err(BtrfsConcatError::ParseError(e)),
        }
    } else {
        Ok(curr)
    }
}

/// The chain check over the first frame of each stream, in order, from no
/// current UUID: the UUID current after them.
pub open spec fn chain_heads_spec(heads: Seq<Seq<u8>>) -> Result<Option<u128>, BtrfsConcatError>
    decreases heads.len(),
{
    if heads.len() == 0 {
        Ok(None)
    } else {
        match chain_heads_spec(heads.drop_last()) {
            Err(e) => Err(e),
            Ok(curr) => validate_spec(ConcatState { adopted: None, curr, last_pending: true }, heads.last()),
        }
    }
}

/// Checks, before anything is written, that the streams form a chain: each
/// stream's first frame (a SUBVOL, or a SNAPSHOT cloned from the UUID the
/// streams before it left current) passes the chain check. Only the first
/// frame of each stream is held.
pub fn check_chain(heads: &Vec<BtrfsCommandBuf>) -> (r: Result<(), BtrfsConcatError>)
    requires
        forall|k: int| 0 <= k < heads@.len() ==> (#[trigger] heads@[k]).wf(),
    ensures
        match chain_heads_spec(frames_view(heads@)) {
            Ok(_) => r == Ok::<(), BtrfsConcatError>(()),
            Err(e) => r == Err::<(), BtrfsConcatError>(e),
        },
{
    let ghost hv = frames_view(heads@);
    let mut curr: Option<u128> = None;
    let mut i: usize = 0;
    assert(hv.subrange(0, 0) =~= Seq::<Seq<u8>>::empty());
    while i < heads.len()
        invariant
            i <= heads@.len(),
            hv == frames_view(heads@),
            forall|k: int| 0 <= k < heads@.len() ==> (#[trigger] heads@[k]).wf(),
            chain_heads_spec(hv.subrange(0, i as int)) == Ok::<Option<u128>, BtrfsConcatError>(curr),
        decreases heads@.len() - i,
    {
        assert(hv.subrange(0, i + 1).drop_last() =~= hv.subrange(0, i as int));
        assert(hv.subrange(0, i + 1).last() == heads@[i as int].0@);
        match validate_frame(curr, &heads[i]) {
            Ok(c) => {
                proof {
                    let st = ConcatState { adopted: None, curr, last_pending: true };
                    assert(validate_spec(st, heads@[i as int].0@) == Ok::<Option<u128>, BtrfsConcatError>(c));
                }
                curr = c;
            },
            Err(e) => {
                proof {
                    let st = ConcatState { adopted: None, curr, last_pending: true };
                    assert(validate_spec(st, heads@[i as int].0@) == Err::<Option<u128>, BtrfsConcatError>(e));
                    lemma_chain_heads_prefix_err(hv, i + 1, e);
                }
                return Err(e);
            },
        }
        i = i + 1;
    }
    assert(hv.subrange(0, heads@.len() as int) =~= hv);
    Ok(())
}

proof fn lemma_chain_heads_prefix_err(hs: Seq<Seq<u8>>, j: int, e: BtrfsConcatError)
    requires
        0 <= j <= hs.len(),
        chain_heads_spec(hs.subrange(0, j)) == Err::<Option<u128>, BtrfsConcatError>(e),
    ensures
        chain_heads_spec(hs) == Err::<Option<u128>, BtrfsConcatError>(e),
    decreases hs.len(),
{
    if j == hs.len() {
        assert(hs.subrange(0, j) =~= hs);
    } else {
        assert(hs.drop_last().subrange(0, j) =~= hs.subrange(0, j));
        lemma_chain_heads_prefix_err(hs.drop_last(), j, e);
    }
}

/// Where the next frames come from, once the active stream has ended.
#[derive(Clone, Copy, Debug, PartialEq, Eq, Structural)]
pub enum ConcatSource {
    /// Open the stream of this index (counting from 0), read past its header
    /// and feed its frames.
    Open(usize),
    /// Feed the rest of the last stream, which was opened first.
    ResumeLast,
    /// The joined stream is complete.
    Finished,
}

/// The join of a chain of streams, one frame at a time. The caller opens
/// the streams, reads their frames and writes what comes out: the engine
/// decides what is emitted and which stream comes next.
pub struct BtrfsCommandConcatIter {
    stream_count: usize,
    next_stream: usize,
    last_head: Option<BtrfsCommandBuf>,
    last_snap_name: Option<Vec<u8>>,
    curr_uuid: Option<u128>,
}

impl View for BtrfsCommandConcatIter {
    type V = ConcatState;

    closed spec fn view(&self) -> ConcatState {
        ConcatState {
            adopted: match self.last_snap_name {
                Some(n) => Some(n@),
                None => None,
            },
            curr: self.curr_uuid,
            last_pending: self.last_head is Some,
        }
    }
}

impl BtrfsCommandConcatIter {
    pub closed spec fn wf(&self) -> bool {
        &&& self.stream_count >= 2
        &&& self.next_stream < self.stream_count
        &&& (self.last_head matches Some(h) ==> frame_wf(h.0@) && frame_kind(h.0@) == Some(BtrfsCommandType::BTRFS_SEND_C_SNAPSHOT))
        &&& (self.last_snap_name matches Some(n) ==> n@.len() <= u16::MAX)
    }

    /// The number of streams the caller has been told to open so far.
    pub closed spec fn opened(&self) -> nat {
        self.next_stream as nat
    }

    /// The number of streams joined.
    pub closed spec fn count(&self) -> nat {
        self.stream_count as nat
    }

    /// The first frame of the last stream, held until that stream's turn.
    pub closed spec fn held(&self) -> Option<Seq<u8>> {
        match self.last_head {
            Some(h) => Some(h.0@),
            None => None,
        }
    }

    /// Starts the join of `stream_count` streams from the first frame of
    /// the last one, which the caller has read after checking that stream's
    /// header. The rest of the last stream waits until its turn.
    pub fn new(stream_count: usize, last_head: BtrfsCommandBuf) -> (r: Result<BtrfsCommandConcatIter, BtrfsConcatError>)
        requires
            last_head.wf(),
        ensures
            stream_count < 2 ==> r == Err::<BtrfsCommandConcatIter, BtrfsConcatError>(BtrfsConcatError::TooFewStreams),
            stream_count >= 2 ==> match concat_start(last_head.0@) {
                Err(e) => r == Err::<BtrfsCommandConcatIter, BtrfsConcatError>(e),
                Ok(st) => r matches Ok(it) && it@ == st && it.wf() && it.opened() == 0 && it.count() == stream_count && it.held() == Some(last_head.0@),
            },
    {
        if stream_count < 2 {
            return Err(BtrfsConcatError::TooFewStreams);
        }
        if last_head.get_kind() != Some(BtrfsCommandType::BTRFS_SEND_C_SNAPSHOT) {
            return Err(BtrfsConcatError::InvalidOrder);
        }
        let snap = match BtrfsSnapshot::load(last_head.get_data()) {
            Ok(s) => s,
            Err(e) => return Err(BtrfsConcatError::ParseError(e)),
        };
        Ok(BtrfsCommandConcatIter {
            stream_count,
            next_stream: 0,
            last_head: Some(last_head),
            last_snap_name: Some(snap.name),
            curr_uuid: None,
        })
    }

    /// The chain check on one frame.
    fn validation_hook(&mut self, command: &BtrfsCommandBuf) -> (r: Result<(), BtrfsConcatError>)
        requires
            command.wf(),
        ensures
            match r {
                Ok(()) => validate_spec(old(self)@, command.0@) == Ok::<Option<u128>, BtrfsConcatError>(final(self).curr_uuid),
                Err(e) => validate_spec(old(self)@, command.0@) == Err::<Option<u128>, BtrfsConcatError>(e),
            },
            final(self).stream_count == old(self).stream_count,
            final(self).next_stream == old(self).next_stream,
            final(self).last_head == old(self).last_head,
            final(self).last_snap_name == old(self).last_snap_name,
    {
        self.curr_uuid = validate_frame(self.curr_uuid, command)?;
        Ok(())
    }

    /// Whether the frame is left out of the output.
    fn suppress_command(&self, command: &BtrfsCommandBuf) -> (r: bool)
        requires
            command.wf(),
        ensures
            r == suppressed(self@, command.0@),
    {
        let kind = command.get_kind();
        (kind == Some(BtrfsCommandType::BTRFS_SEND_C_END) && self.last_head.is_some()) || kind == Some(
            BtrfsCommandType::BTRFS_SEND_C_SNAPSHOT,
        )
    }

    /// Renames the first SUBVOL after the last stream's snapshot; other
    /// frames pass unchanged.
    fn transform(&mut self, command: BtrfsCommandBuf) -> (r: BtrfsCommandBuf)
        requires
            command.wf(),
            old(self).wf(),
            frame_kind(command.0@) == Some(BtrfsCommandType::BTRFS_SEND_C_SUBVOL) ==> subvol_spec(frame_payload(command.0@)) is Ok,
        ensures
            r.wf(),
            final(self).wf(),
            final(self).stream_count == old(self).stream_count,
            final(self).next_stream == old(self).next_stream,
            final(self).last_head == old(self).last_head,
            final(self).curr_uuid == old(self).curr_uuid,
            if old(self)@.adopted is Some && frame_kind(command.0@) == Some(BtrfsCommandType::BTRFS_SEND_C_SUBVOL) {
                &&& r.0@ == subvol_frame(SubvolModel { name: old(self)@.adopted.unwrap(), ..subvol_spec(frame_payload(command.0@)).unwrap().0 })
                &&& final(self)@.adopted is None
            } else {
                r.0@ == command.0@ && final(self)@.adopted == old(self)@.adopted
            },
    {
        if self.last_snap_name.is_some() && command.get_kind() == Some(BtrfsCommandType::BTRFS_SEND_C_SUBVOL) {
            let mut subv = match BtrfsSubvol::load(command.get_data()) {
                Ok(v) => v,
                Err(_) => return command,
            };
            subv.name = self.last_snap_name.take().unwrap();
            let encapped = subv.encap();
            let bytes = encapped.serialize();
            proof {
                let c = encapped@;
                crate::btrfs::lemma_command_bytes_fields(crate::btrfs::with_crc(c));
                assert(crate::btrfs::with_crc(c) == c);
            }
            BtrfsCommandBuf(bytes)
        } else {
            command
        }
    }

    /// Takes one frame of the active stream: checks the chain, and gives the
    /// frame to emit, if any.
    pub fn on_command(&mut self, command: BtrfsCommandBuf) -> (r: Result<Option<BtrfsCommandBuf>, BtrfsConcatError>)
        requires
            old(self).wf(),
            command.wf(),
        ensures
            match r {
                Ok(o) => concat_step(old(self)@, command.0@) == Ok::<(ConcatState, Option<Seq<u8>>), BtrfsConcatError>(
                    (
                        final(self)@,
                        match o {
                            Some(b) => Some(b.0@),
                            None => None,
                        },
                    ),
                ) && (o matches Some(b) ==> b.wf()),
                Err(e) => concat_step(old(self)@, command.0@) == Err::<(ConcatState, Option<Seq<u8>>), BtrfsConcatError>(e),
            },
            final(self).wf(),
            final(self).opened() == old(self).opened(),
            final(self).held() == old(self).held(),
            final(self).count() == old(self).count(),
    {
        reveal(concat_step);
        self.validation_hook(&command)?;
        if self.suppress_command(&command) {
            return Ok(None);
        }
        proof {
            if frame_kind(command.0@) == Some(BtrfsCommandType::BTRFS_SEND_C_SUBVOL) {
                assert(subvol_spec(frame_payload(command.0@)) is Ok);
            }
        }
        let out = self.transform(command);
        Ok(Some(out))
    }

    /// The active stream has ended: says where the next frames come from.
    /// When the last stream's turn comes, its first frame, held since the
    /// start, is checked against the chain first.
    pub fn on_eof(&mut self) -> (r: Result<ConcatSource, BtrfsConcatError>)
        requires
            old(self).wf(),
        ensures
            final(self).wf(),
            final(self).count() == old(self).count(),
            old(self).opened() + 1 < old(self).count() ==> r == Ok::<ConcatSource, BtrfsConcatError>(
                ConcatSource::Open(old(self).opened() as usize),
            ) && final(self).opened() == old(self).opened() + 1 && final(self)@ == old(self)@ && final(self).held() == old(self).held(),
            old(self).opened() + 1 >= old(self).count() && old(self).held() is None ==> r == Ok::<ConcatSource, BtrfsConcatError>(
                ConcatSource::Finished,
            ) && final(self)@ == old(self)@ && final(self).held() is None,
            old(self).opened() + 1 >= old(self).count() && old(self).held() is Some ==> match concat_step(
                ConcatState { last_pending: false, ..old(self)@ },
                old(self).held().unwrap(),
            ) {
                Ok((st, o)) => r == Ok::<ConcatSource, BtrfsConcatError>(ConcatSource::ResumeLast) && final(self)@ == st
                    && final(self).held() is None && o is None,
                Err(e) => r == Err::<ConcatSource, BtrfsConcatError>(e),
            },
    {
        if self.next_stream + 1 < self.stream_count {
            let i = self.next_stream;
            self.next_stream = self.next_stream + 1;
            return Ok(ConcatSource::Open(i));
        }
        match self.last_head.take() {
            None => Ok(ConcatSource::Finished),
            Some(head) => {
                self.on_command(head)?;
                proof {
                    reveal(concat_step);
                }
                Ok(ConcatSource::ResumeLast)
            },
        }
    }
}

} // verus!

verus! {

/// The frames of each stream, as byte sequences.
pub open spec fn streams_view(streams: Seq<Vec<BtrfsCommandBuf>>) -> Seq<Seq<Seq<u8>>> {
    streams.map_values(|s: Vec<BtrfsCommandBuf>| s@.map_values(|b: BtrfsCommandBuf| b.0@))
}

pub open spec fn frames_view(fs: Seq<BtrfsCommandBuf>) -> Seq<Seq<u8>> {
    fs.map_values(|b: BtrfsCommandBuf| b.0@)
}

proof fn lemma_run_prefix_err(st: ConcatState, fs: Seq<Seq<u8>>, j: int, e: BtrfsConcatError)
    requires
        0 <= j <= fs.len(),
        concat_run(st, fs.subrange(0, j)) == Err::<(ConcatState, Seq<Seq<u8>>), BtrfsConcatError>(e),
    ensures
        concat_run(st, fs) == Err::<(ConcatState, Seq<Seq<u8>>), BtrfsConcatError>(e),
    decreases fs.len(),
{
    if j == fs.len() {
        assert(fs.subrange(0, j) =~= fs);
    } else {
        assert(fs.drop_last().subrange(0, j) =~= fs.subrange(0, j));
        lemma_run_prefix_err(st, fs.drop_last(), j, e);
    }
}

proof fn lemma_streams_prefix_err(st: ConcatState, ss: Seq<Seq<Seq<u8>>>, i: int, e: BtrfsConcatError)
    requires
        0 <= i <= ss.len(),
        concat_run_streams(st, ss.subrange(0, i)) == Err::<(ConcatState, Seq<Seq<u8>>), BtrfsConcatError>(e),
    ensures
        concat_run_streams(st, ss) == Err::<(ConcatState, Seq<Seq<u8>>), BtrfsConcatError>(e),
    decreases ss.len(),
{
    if i == ss.len() {
        assert(ss.subrange(0, i) =~= ss);
    } else {
        assert(ss.drop_last().subrange(0, i) =~= ss.subrange(0, i));
        lemma_streams_prefix_err(st, ss.drop_last(), i, e);
    }
}

fn copy_frame(b: &BtrfsCommandBuf) -> (r: BtrfsCommandBuf)
    ensures
        r.0@ == b.0@,
{
    BtrfsCommandBuf(vstd::slice::slice_to_vec(b.0.as_slice()))
}

/// Feeds the frames `fs[from..]` to the engine, collecting what it emits.
fn feed_frames(engine: &mut BtrfsCommandConcatIter, fs: &Vec<BtrfsCommandBuf>, from: usize, out: &mut Vec<BtrfsCommandBuf>, Ghost(st): Ghost<ConcatState>) -> (r: Result<(), BtrfsConcatError>)
    requires
        old(engine).wf(),
        from <= fs@.len(),
        forall|k: int| 0 <= k < fs@.len() ==> (#[trigger] fs@[k]).wf(),
        concat_run(st, frames_view(fs@).subrange(0, from as int)) == Ok::<(ConcatState, Seq<Seq<u8>>), BtrfsConcatError>((old(engine)@, Seq::empty())),
    ensures
        final(engine).wf(),
        final(engine).opened() == old(engine).opened(),
        final(engine).held() == old(engine).held(),
        final(engine).count() == old(engine).count(),
        match r {
            Ok(()) => concat_run(st, frames_view(fs@)) == Ok::<(ConcatState, Seq<Seq<u8>>), BtrfsConcatError>(
                (final(engine)@, frames_view(final(out)@).subrange(old(out)@.len() as int, final(out)@.len() as int)),
            ) && frames_view(final(out)@).subrange(0, old(out)@.len() as int) == frames_view(old(out)@),
            Err(e) => concat_run(st, frames_view(fs@)) == Err::<(ConcatState, Seq<Seq<u8>>), BtrfsConcatError>(e),
        },
        final(out)@.len() >= old(out)@.len(),
{
    let ghost fv = frames_view(fs@);
    let ghost base = out@.len();
    let ghost out0 = out@;
    let mut j: usize = from;
    assert(frames_view(out@).subrange(base as int, out@.len() as int) =~= Seq::<Seq<u8>>::empty());
    assert(frames_view(out@).subrange(0, base as int) =~= frames_view(out0));
    while j < fs.len()
        invariant
            from <= j <= fs@.len(),
            fv == frames_view(fs@),
            base == out0.len(),
            out0 == old(out)@,
            base <= out@.len(),
            forall|k: int| 0 <= k < fs@.len() ==> (#[trigger] fs@[k]).wf(),
            engine.wf(),
            engine.opened() == old(engine).opened(),
            engine.held() == old(engine).held(),
            engine.count() == old(engine).count(),
            concat_run(st, fv.subrange(0, j as int)) == Ok::<(ConcatState, Seq<Seq<u8>>), BtrfsConcatError>(
                (engine@, frames_view(out@).subrange(base as int, out@.len() as int)),
            ),
            frames_view(out@).subrange(0, base as int) == frames_view(out0),
        decreases fs@.len() - j,
    {
        assert(fv.subrange(0, j + 1).drop_last() =~= fv.subrange(0, j as int));
        assert(fv.subrange(0, j + 1).last() == fs@[j as int].0@);
        let ghost before = out@;
        match engine.on_command(copy_frame(&fs[j])) {
            Ok(Some(b)) => {
                out.push(b);
                assert(frames_view(out@).subrange(0, base as int) =~= frames_view(before).subrange(0, base as int));
                assert(frames_view(out@).subrange(base as int, out@.len() as int) =~= frames_view(before).subrange(
                    base as int,
                    before.len() as int,
                ) + emitted(Some(b.0@)));
            },
            Ok(None) => {
                assert(frames_view(before).subrange(base as int, before.len() as int) + emitted(None) =~= frames_view(
                    before,
                ).subrange(base as int, before.len() as int));
            },
            Err(e) => {
                proof {
                    lemma_run_prefix_err(st, fv, j + 1, e);
                }
                return Err(e);
            },
        }
        j = j + 1;
    }
    assert(fv.subrange(0, fs@.len() as int) =~= fv);
    Ok(())
}

/// Joins whole streams held in memory, each given as its frames (header
/// left off), as a caller that reads from files does: the frames of the
/// joined stream, to be written after one header of version 1.
#[verifier::rlimit(40)]
pub fn concat_frames(streams: &Vec<Vec<BtrfsCommandBuf>>) -> (r: Result<Vec<BtrfsCommandBuf>, BtrfsConcatError>)
    requires
        forall|i: int, k: int| 0 <= i < streams@.len() && 0 <= k < streams@[i]@.len() ==> (#[trigger] streams@[i]@[k]).wf(),
    ensures
        match r {
            Ok(out) => concat_spec(streams_view(streams@)) == Ok::<Seq<Seq<u8>>, BtrfsConcatError>(frames_view(out@)),
            Err(e) => concat_spec(streams_view(streams@)) == Err::<Seq<Seq<u8>>, BtrfsConcatError>(e),
        },
{
    let ghost ss = streams_view(streams@);
    let n = streams.len();
    if n < 2 {
        return Err(BtrfsConcatError::TooFewStreams);
    }
    let last = &streams[n - 1];
    assert(ss.last() == frames_view(last@));
    if last.len() == 0 {
        return Err(BtrfsConcatError::ParseError(BtrfsParseError::ReadError(crate::btrfs::ReadErrorKind::EndOfFile)));
    }
    assert(last@[0].wf());
    let mut engine = BtrfsCommandConcatIter::new(n, copy_frame(&last[0]))?;
    let ghost st0 = engine@;
    assert(ss.last()[0] == last@[0].0@);
    let ghost heads = ss.drop_last();
    let mut out: Vec<BtrfsCommandBuf> = Vec::new();
    let mut i: usize = 0;
    assert(heads.subrange(0, 0) =~= Seq::<Seq<Seq<u8>>>::empty());
    assert(frames_view(out@) =~= Seq::<Seq<u8>>::empty());
    while i + 1 < n
        invariant
            n == streams@.len(),
            n >= 2,
            i + 1 <= n,
            ss == streams_view(streams@),
            heads == ss.drop_last(),
            last@.len() > 0,
            ss.len() == n,
            ss.last() == frames_view(last@),
            concat_start(ss.last()[0]) == Ok::<ConcatState, BtrfsConcatError>(st0),
            last == streams@[n - 1],
            forall|i: int, k: int| 0 <= i < streams@.len() && 0 <= k < streams@[i]@.len() ==> (#[trigger] streams@[i]@[k]).wf(),
            engine.wf(),
            engine.opened() == i,
            engine.count() == n,
            engine.held() == Some(last@[0].0@),
            concat_run_streams(st0, heads.subrange(0, i as int)) == Ok::<(ConcatState, Seq<Seq<u8>>), BtrfsConcatError>(
                (engine@, frames_view(out@)),
            ),
        decreases n - i,
    {
        let src = engine.on_eof();
        assert(src == Ok::<ConcatSource, BtrfsConcatError>(ConcatSource::Open(i)));
        let ghost sti = engine@;
        let ghost outi = out@;
        assert(heads.subrange(0, i + 1).drop_last() =~= heads.subrange(0, i as int));
        assert(heads.subrange(0, i + 1).last() == frames_view(streams@[i as int]@));
        assert(frames_view(streams@[i as int]@).subrange(0, 0) =~= Seq::<Seq<u8>>::empty());
        match feed_frames(&mut engine, &streams[i], 0, &mut out, Ghost(sti)) {
            Ok(()) => {
                assert(frames_view(out@) =~= frames_view(outi) + frames_view(out@).subrange(outi.len() as int, out@.len() as int));
            },
            Err(e) => {
                proof {
                    lemma_streams_prefix_err(st0, heads, i + 1, e);
                }
                return Err(e);
            },
        }
        i = i + 1;
    }
    assert(heads.subrange(0, (n - 1) as int) =~= heads);
    let ghost st1 = engine@;
    let ghost out1 = out@;
    let ghost lv = frames_view(last@);
    let ghost stl = ConcatState { last_pending: false, ..st1 };
    let src = engine.on_eof();
    assert(lv.subrange(0, 1).drop_last() =~= Seq::<Seq<u8>>::empty());
    assert(lv.subrange(0, 1).last() == last@[0].0@);
    assert(concat_run(stl, lv.subrange(0, 1).drop_last()) == Ok::<(ConcatState, Seq<Seq<u8>>), BtrfsConcatError>((stl, Seq::empty())));
    match src {
        Ok(_) => {},
        Err(e) => {
            proof {
                lemma_run_prefix_err(stl, lv, 1, e);
            }
            return Err(e);
        },
    }
    assert(frames_view(out@).subrange(out@.len() as int, out@.len() as int) =~= Seq::<Seq<u8>>::empty());
    match feed_frames(&mut engine, last, 1, &mut out, Ghost(stl)) {
        Ok(()) => {
            assert(frames_view(out@) =~= frames_view(out1) + frames_view(out@).subrange(out1.len() as int, out@.len() as int));
            Ok(out)
        },
        Err(e) => Err(e),
    }
}

} // verus!

verus! {

/// Whether a frame is neither END nor SNAPSHOT.
pub open spec fn is_inner(f: Seq<u8>) -> bool {
    frame_kind(f) != Some(BtrfsCommandType::BTRFS_SEND_C_END) && frame_kind(f) != Some(
        BtrfsCommandType::BTRFS_SEND_C_SNAPSHOT,
    )
}

/// The number of frames that are neither END nor SNAPSHOT.
pub open spec fn count_inner(fs: Seq<Seq<u8>>) -> nat
    decreases fs.len(),
{
    if fs.len() == 0 {
        0
    } else {
        count_inner(fs.drop_last()) + if is_inner(fs.last()) {
            1nat
        } else {
            0nat
        }
    }
}

/// The number of frames of kind `k`.
pub open spec fn count_kind(fs: Seq<Seq<u8>>, k: BtrfsCommandType) -> nat
    decreases fs.len(),
{
    if fs.len() == 0 {
        0
    } else {
        count_kind(fs.drop_last(), k) + if frame_kind(fs.last()) == Some(k) {
            1nat
        } else {
            0nat
        }
    }
}

/// The number of frames that are neither END nor SNAPSHOT, over all streams.
pub open spec fn count_inner_streams(ss: Seq<Seq<Seq<u8>>>) -> nat
    decreases ss.len(),
{
    if ss.len() == 0 {
        0
    } else {
        count_inner_streams(ss.drop_last()) + count_inner(ss.last())
    }
}

proof fn lemma_counts_append(a: Seq<Seq<u8>>, b: Seq<Seq<u8>>)
    ensures
        count_inner(a + b) == count_inner(a) + count_inner(b),
        forall|k: BtrfsCommandType| #[trigger] count_kind(a + b, k) == count_kind(a, k) + count_kind(b, k),
    decreases b.len(),
{
    if b.len() == 0 {
        assert(a + b =~= a);
    } else {
        assert((a + b).drop_last() =~= a + b.drop_last());
        assert((a + b).last() == b.last());
        lemma_counts_append(a, b.drop_last());
        assert forall|k: BtrfsCommandType| #[trigger] count_kind(a + b, k) == count_kind(a, k) + count_kind(b, k) by {
            assert(count_kind(a + b.drop_last(), k) == count_kind(a, k) + count_kind(b.drop_last(), k));
        }
    }
}

proof fn lemma_frame_kind_of_command(c: crate::btrfs::CommandModel)
    ensures
        frame_kind(command_bytes(c)) == Some(c.kind),
{
    let b = command_bytes(c);
    assert(b[4] == crate::bytes::le16_bytes(kind_code(c.kind))[0]);
    assert(b[5] == crate::bytes::le16_bytes(kind_code(c.kind))[1]);
    crate::bytes::lemma_le16_round_trip(kind_code(c.kind));
    assert(le16_at(b, 4) == le16_at(crate::bytes::le16_bytes(kind_code(c.kind)), 0));
    crate::btrfs::lemma_kind_of_kind_code(c.kind);
}

proof fn lemma_step_facts(st: ConcatState, f: Seq<u8>)
    requires
        concat_step(st, f) is Ok,
    ensures
        ({
            let (st2, o) = concat_step(st, f).unwrap();
            &&& st2.last_pending == st.last_pending
            &&& (st.curr is Some ==> st2.curr is Some)
            &&& count_inner(emitted(o)) == if is_inner(f) { 1nat } else { 0nat }
            &&& count_kind(emitted(o), BtrfsCommandType::BTRFS_SEND_C_END) == if !st.last_pending && frame_kind(f)
                == Some(BtrfsCommandType::BTRFS_SEND_C_END) {
                1nat
            } else {
                0nat
            }
            &&& count_kind(emitted(o), BtrfsCommandType::BTRFS_SEND_C_SUBVOL) <= if st.curr is None { 1nat } else { 0nat }
            &&& (count_kind(emitted(o), BtrfsCommandType::BTRFS_SEND_C_SUBVOL) > 0 ==> st2.curr is Some)
            &&& count_kind(emitted(o), BtrfsCommandType::BTRFS_SEND_C_SNAPSHOT) == 0
            &&& (frame_kind(f) == Some(BtrfsCommandType::BTRFS_SEND_C_SNAPSHOT) ==> snapshot_spec(frame_payload(f)) is Ok
                && st.curr == Some(snapshot_spec(frame_payload(f)).unwrap().0.clone_uuid))
        }),
{
    reveal(concat_step);
    let (st2, o) = concat_step(st, f).unwrap();
    let z = Seq::<Seq<u8>>::empty();
    assert(count_inner(z) == 0);
    assert(count_kind(z, BtrfsCommandType::BTRFS_SEND_C_END) == 0);
    assert(count_kind(z, BtrfsCommandType::BTRFS_SEND_C_SUBVOL) == 0);
    assert(count_kind(z, BtrfsCommandType::BTRFS_SEND_C_SNAPSHOT) == 0);
    if let Some(g) = o {
        let e = emitted(o);
        assert(e.drop_last() =~= Seq::<Seq<u8>>::empty());
        assert(e.last() == g);
        if g != f {
            let v = subvol_spec(frame_payload(f)).unwrap().0;
            let c = command_for(BtrfsCommandType::BTRFS_SEND_C_SUBVOL, subvol_payload(SubvolModel { name: st.adopted.unwrap(), ..v }));
            lemma_frame_kind_of_command(c);
        }
    }
}

/// What a run of frames keeps: its inner frames, its ENDs once the last
/// stream is active, and at most one SUBVOL, before any UUID is current.
pub proof fn lemma_run_facts(st: ConcatState, fs: Seq<Seq<u8>>)
    requires
        concat_run(st, fs) is Ok,
    ensures
        ({
            let (st2, out) = concat_run(st, fs).unwrap();
            &&& st2.last_pending == st.last_pending
            &&& (st.curr is Some ==> st2.curr is Some)
            &&& count_inner(out) == count_inner(fs)
            &&& count_kind(out, BtrfsCommandType::BTRFS_SEND_C_END) == if st.last_pending { 0 } else { count_kind(fs, BtrfsCommandType::BTRFS_SEND_C_END) }
            &&& count_kind(out, BtrfsCommandType::BTRFS_SEND_C_SUBVOL) <= if st.curr is None { 1nat } else { 0nat }
            &&& (count_kind(out, BtrfsCommandType::BTRFS_SEND_C_SUBVOL) > 0 ==> st2.curr is Some)
            &&& count_kind(out, BtrfsCommandType::BTRFS_SEND_C_SNAPSHOT) == 0
        }),
    decreases fs.len(),
{
    if fs.len() > 0 {
        lemma_run_facts(st, fs.drop_last());
        let (st1, out1) = concat_run(st, fs.drop_last()).unwrap();
        lemma_step_facts(st1, fs.last());
        let (st2, o) = concat_step(st1, fs.last()).unwrap();
        lemma_counts_append(out1, emitted(o));
    }
}

} // verus!

verus! {

/// The UUID current after the frames `fs`, starting from `c`: that of the
/// last SUBVOL or SNAPSHOT among them.
pub open spec fn trailing_uuid(c: Option<u128>, fs: Seq<Seq<u8>>) -> Option<u128>
    decreases fs.len(),
{
    if fs.len() == 0 {
        c
    } else if frame_kind(fs.last()) == Some(BtrfsCommandType::BTRFS_SEND_C_SUBVOL) && subvol_spec(
        frame_payload(fs.last()),
    ) is Ok {
        Some(subvol_spec(frame_payload(fs.last())).unwrap().0.uuid)
    } else if frame_kind(fs.last()) == Some(BtrfsCommandType::BTRFS_SEND_C_SNAPSHOT) && snapshot_spec(
        frame_payload(fs.last()),
    ) is Ok {
        Some(snapshot_spec(frame_payload(fs.last())).unwrap().0.uuid)
    } else {
        trailing_uuid(c, fs.drop_last())
    }
}

/// The UUID current after the streams `ss`, one after another.
pub open spec fn trailing_uuid_streams(c: Option<u128>, ss: Seq<Seq<Seq<u8>>>) -> Option<u128>
    decreases ss.len(),
{
    if ss.len() == 0 {
        c
    } else {
        trailing_uuid(trailing_uuid_streams(c, ss.drop_last()), ss.last())
    }
}

/// Every SNAPSHOT in `fs` was cloned from the UUID current before it.
pub open spec fn chain_continuous(c: Option<u128>, fs: Seq<Seq<u8>>) -> bool {
    forall|j: int|
        0 <= j < fs.len() && #[trigger] frame_kind(fs[j]) == Some(BtrfsCommandType::BTRFS_SEND_C_SNAPSHOT) ==> snapshot_spec(
            frame_payload(fs[j]),
        ) is Ok && trailing_uuid(c, fs.subrange(0, j)) == Some(snapshot_spec(frame_payload(fs[j])).unwrap().0.clone_uuid)
}

proof fn lemma_step_curr(st: ConcatState, f: Seq<u8>)
    requires
        concat_step(st, f) is Ok,
    ensures
        concat_step(st, f).unwrap().0.curr == trailing_uuid(st.curr, seq![f]),
        concat_step(st, f).unwrap().0.adopted is None ==> st.adopted is None || frame_kind(f) == Some(
            BtrfsCommandType::BTRFS_SEND_C_SUBVOL,
        ),
{
    reveal(concat_step);
    assert(seq![f].drop_last() =~= Seq::<Seq<u8>>::empty());
    assert(seq![f].last() == f);
    assert(trailing_uuid(st.curr, Seq::<Seq<u8>>::empty()) == st.curr);
}

/// A run that succeeds ends with the UUID current after its frames, and
/// every SNAPSHOT in it continued the chain.
pub proof fn lemma_run_chain(st: ConcatState, fs: Seq<Seq<u8>>)
    requires
        concat_run(st, fs) is Ok,
    ensures
        concat_run(st, fs).unwrap().0.curr == trailing_uuid(st.curr, fs),
        chain_continuous(st.curr, fs),
    decreases fs.len(),
{
    if fs.len() > 0 {
        let p = fs.drop_last();
        lemma_run_chain(st, p);
        let (st1, _) = concat_run(st, p).unwrap();
        lemma_step_curr(st1, fs.last());
        lemma_step_facts(st1, fs.last());
        lemma_trailing_push(st.curr, p, fs.last());
        assert(p.push(fs.last()) =~= fs);
        assert forall|j: int| 0 <= j < fs.len() && #[trigger] frame_kind(fs[j]) == Some(BtrfsCommandType::BTRFS_SEND_C_SNAPSHOT) implies snapshot_spec(
            frame_payload(fs[j]),
        ) is Ok && trailing_uuid(st.curr, fs.subrange(0, j)) == Some(snapshot_spec(frame_payload(fs[j])).unwrap().0.clone_uuid) by {
            if j < p.len() {
                assert(p[j] == fs[j]);
                assert(p.subrange(0, j) =~= fs.subrange(0, j));
            } else {
                assert(p =~= fs.subrange(0, j));
            }
        }
    }
}

proof fn lemma_trailing_push(c: Option<u128>, p: Seq<Seq<u8>>, f: Seq<u8>)
    ensures
        trailing_uuid(c, p.push(f)) == trailing_uuid(trailing_uuid(c, p), seq![f]),
{
    assert(p.push(f).drop_last() =~= p);
    assert(p.push(f).last() == f);
    assert(seq![f].drop_last() =~= Seq::<Seq<u8>>::empty());
    assert(seq![f].last() == f);
    assert(trailing_uuid(trailing_uuid(c, p), Seq::<Seq<u8>>::empty()) == trailing_uuid(c, p));
}

proof fn lemma_streams_facts(st: ConcatState, ss: Seq<Seq<Seq<u8>>>)
    requires
        concat_run_streams(st, ss) is Ok,
    ensures
        ({
            let (st2, out) = concat_run_streams(st, ss).unwrap();
            &&& st2.last_pending == st.last_pending
            &&& (st.curr is Some ==> st2.curr is Some)
            &&& count_inner(out) == count_inner_streams(ss)
            &&& (st.last_pending ==> count_kind(out, BtrfsCommandType::BTRFS_SEND_C_END) == 0)
            &&& count_kind(out, BtrfsCommandType::BTRFS_SEND_C_SUBVOL) <= if st.curr is None { 1nat } else { 0nat }
            &&& (count_kind(out, BtrfsCommandType::BTRFS_SEND_C_SUBVOL) > 0 ==> st2.curr is Some)
            &&& count_kind(out, BtrfsCommandType::BTRFS_SEND_C_SNAPSHOT) == 0
            &&& st2.curr == trailing_uuid_streams(st.curr, ss)
            &&& forall|i: int| 0 <= i < ss.len() ==> chain_continuous(#[trigger] trailing_uuid_streams(st.curr, ss.subrange(0, i)), ss[i])
        }),
    decreases ss.len(),
{
    if ss.len() > 0 {
        let p = ss.drop_last();
        lemma_streams_facts(st, p);
        let (st1, out1) = concat_run_streams(st, p).unwrap();
        lemma_run_facts(st1, ss.last());
        lemma_run_chain(st1, ss.last());
        let (st2, o) = concat_run(st1, ss.last()).unwrap();
        lemma_counts_append(out1, o);
        assert forall|i: int| 0 <= i < ss.len() implies chain_continuous(#[trigger] trailing_uuid_streams(st.curr, ss.subrange(0, i)), ss[i]) by {
            if i < p.len() {
                assert(p.subrange(0, i) =~= ss.subrange(0, i));
                assert(trailing_uuid_streams(st.curr, p.subrange(0, i)) == trailing_uuid_streams(st.curr, ss.subrange(0, i)));
                assert(p[i] == ss[i]);
            } else {
                assert(p =~= ss.subrange(0, i));
            }
        }
    }
}

/// A join that succeeds keeps every frame that is neither END nor SNAPSHOT,
/// emits exactly as many ENDs as the last stream holds (so exactly one when
/// the last stream ends with its only END), holds at most one SUBVOL and no
/// SNAPSHOT.
pub proof fn lemma_concat_counts(ss: Seq<Seq<Seq<u8>>>)
    requires
        concat_spec(ss) is Ok,
    ensures
        count_inner(concat_spec(ss).unwrap()) == count_inner_streams(ss),
        count_kind(concat_spec(ss).unwrap(), BtrfsCommandType::BTRFS_SEND_C_END) == count_kind(
            ss.last(),
            BtrfsCommandType::BTRFS_SEND_C_END,
        ),
        count_kind(concat_spec(ss).unwrap(), BtrfsCommandType::BTRFS_SEND_C_SUBVOL) <= 1,
        count_kind(concat_spec(ss).unwrap(), BtrfsCommandType::BTRFS_SEND_C_SNAPSHOT) == 0,
{
    let st0 = concat_start(ss.last()[0]).unwrap();
    lemma_streams_facts(st0, ss.drop_last());
    let (st1, o1) = concat_run_streams(st0, ss.drop_last()).unwrap();
    let stl = ConcatState { last_pending: false, ..st1 };
    lemma_run_facts(stl, ss.last());
    let (_, o2) = concat_run(stl, ss.last()).unwrap();
    lemma_counts_append(o1, o2);
    assert(ss.drop_last().push(ss.last()) =~= ss);
    assert(count_inner_streams(ss) == count_inner_streams(ss.drop_last()) + count_inner(ss.last()));
}

/// In a join that succeeds, every SNAPSHOT of every stream was cloned from
/// the UUID that the streams before it, and its own frames before it, left
/// current: a SNAPSHOT that breaks the chain halts the join.
pub proof fn lemma_concat_chain(ss: Seq<Seq<Seq<u8>>>)
    requires
        concat_spec(ss) is Ok,
    ensures
        forall|i: int| 0 <= i < ss.len() ==> chain_continuous(#[trigger] trailing_uuid_streams(None, ss.subrange(0, i)), ss[i]),
{
    let st0 = concat_start(ss.last()[0]).unwrap();
    let heads = ss.drop_last();
    lemma_streams_facts(st0, heads);
    let (st1, o1) = concat_run_streams(st0, heads).unwrap();
    let stl = ConcatState { last_pending: false, ..st1 };
    lemma_run_chain(stl, ss.last());
    assert forall|i: int| 0 <= i < ss.len() implies chain_continuous(#[trigger] trailing_uuid_streams(None, ss.subrange(0, i)), ss[i]) by {
        if i < heads.len() {
            assert(heads.subrange(0, i) =~= ss.subrange(0, i));
            assert(heads[i] == ss[i]);
            assert(chain_continuous(trailing_uuid_streams(st0.curr, heads.subrange(0, i)), heads[i]));
        } else {
            assert(heads =~= ss.subrange(0, i));
        }
    }
}

/// A SNAPSHOT that does not continue the chain is a chain break.
pub proof fn lemma_step_chain_break(st: ConcatState, f: Seq<u8>)
    requires
        frame_kind(f) == Some(BtrfsCommandType::BTRFS_SEND_C_SNAPSHOT),
        snapshot_spec(frame_payload(f)) is Ok,
        st.curr != Some(snapshot_spec(frame_payload(f)).unwrap().0.clone_uuid),
    ensures
        concat_step(st, f) == Err::<(ConcatState, Option<Seq<u8>>), BtrfsConcatError>(BtrfsConcatError::ChainBreak),
{
    reveal(concat_step);
}

} // verus!

verus! {

proof fn lemma_run_prefix(st: ConcatState, fs: Seq<Seq<u8>>, j: int)
    requires
        concat_run(st, fs) is Ok,
        0 <= j <= fs.len(),
    ensures
        concat_run(st, fs.subrange(0, j)) is Ok,
        concat_run(st, fs).unwrap().1.subrange(0, concat_run(st, fs.subrange(0, j)).unwrap().1.len() as int)
            == concat_run(st, fs.subrange(0, j)).unwrap().1,
        concat_run(st, fs.subrange(0, j)).unwrap().1.len() <= concat_run(st, fs).unwrap().1.len(),
    decreases fs.len(),
{
    if j == fs.len() {
        assert(fs.subrange(0, j) =~= fs);
        let o = concat_run(st, fs).unwrap().1;
        assert(o.subrange(0, o.len() as int) =~= o);
    } else {
        assert(fs.drop_last().subrange(0, j) =~= fs.subrange(0, j));
        lemma_run_prefix(st, fs.drop_last(), j);
        let o1 = concat_run(st, fs.drop_last()).unwrap().1;
        let o = concat_run(st, fs).unwrap().1;
        let oj = concat_run(st, fs.subrange(0, j)).unwrap().1;
        assert(o.subrange(0, o1.len() as int) =~= o1);
        assert(o.subrange(0, oj.len() as int) =~= o1.subrange(0, oj.len() as int));
    }
}

proof fn lemma_streams_first(st: ConcatState, ss: Seq<Seq<Seq<u8>>>)
    requires
        concat_run_streams(st, ss) is Ok,
        ss.len() >= 1,
    ensures
        concat_run(st, ss[0]) is Ok,
        concat_run_streams(st, ss).unwrap().1.subrange(0, concat_run(st, ss[0]).unwrap().1.len() as int)
            == concat_run(st, ss[0]).unwrap().1,
        concat_run(st, ss[0]).unwrap().1.len() <= concat_run_streams(st, ss).unwrap().1.len(),
    decreases ss.len(),
{
    let o = concat_run_streams(st, ss).unwrap().1;
    if ss.len() == 1 {
        assert(ss.drop_last() =~= Seq::<Seq<Seq<u8>>>::empty());
        let o0 = concat_run(st, ss[0]).unwrap().1;
        assert(o =~= Seq::<Seq<u8>>::empty() + o0);
        assert(o.subrange(0, o0.len() as int) =~= o0);
    } else {
        lemma_streams_first(st, ss.drop_last());
        assert(ss.drop_last()[0] == ss[0]);
        let o1 = concat_run_streams(st, ss.drop_last()).unwrap().1;
        let o0 = concat_run(st, ss[0]).unwrap().1;
        assert(o.subrange(0, o1.len() as int) =~= o1);
        assert(o.subrange(0, o0.len() as int) =~= o1.subrange(0, o0.len() as int));
    }
}

proof fn lemma_subvol_frame_reads(m: SubvolModel)
    requires
        m.name.len() <= u16::MAX,
    ensures
        frame_kind(subvol_frame(m)) == Some(BtrfsCommandType::BTRFS_SEND_C_SUBVOL),
        subvol_spec(frame_payload(subvol_frame(m))) == Ok::<(SubvolModel, nat), crate::btrfs::BtrfsParseError>(
            (m, frame_payload(subvol_frame(m)).len()),
        ),
        crate::btrfs::frame_crc(subvol_frame(m)) == crate::bytes::le32_at(subvol_frame(m), 6),
{
    let c = command_for(BtrfsCommandType::BTRFS_SEND_C_SUBVOL, subvol_payload(m));
    crate::btrfs::lemma_command_bytes_fields(c);
    crate::btrfs::lemma_frame_crc_is_command_crc(c);
    lemma_frame_kind_of_command(c);
    crate::payload::lemma_subvol_round_trip(m);
}

proof fn lemma_first_subvol_step(st: ConcatState, f: Seq<u8>)
    requires
        concat_step(st, f) is Ok,
        st.adopted is Some,
        frame_kind(f) == Some(BtrfsCommandType::BTRFS_SEND_C_SUBVOL),
    ensures
        concat_step(st, f).unwrap().1 == Some(
            subvol_frame(SubvolModel { name: st.adopted.unwrap(), ..subvol_spec(frame_payload(f)).unwrap().0 }),
        ),
{
    reveal(concat_step);
}

/// In a join that succeeds, when the first stream starts with a SUBVOL,
/// the output starts with that SUBVOL under the name of the last stream's
/// snapshot: same UUID and transaction id, and it reads back as such.
pub proof fn lemma_concat_renames_root(ss: Seq<Seq<Seq<u8>>>)
    requires
        concat_spec(ss) is Ok,
        ss.len() >= 2,
        ss[0].len() > 0,
        frame_kind(ss[0][0]) == Some(BtrfsCommandType::BTRFS_SEND_C_SUBVOL),
    ensures
        ({
            let v = subvol_spec(frame_payload(ss[0][0])).unwrap().0;
            let name = snapshot_spec(frame_payload(ss.last()[0])).unwrap().0.name;
            let out = concat_spec(ss).unwrap();
            let renamed = SubvolModel { name, ..v };
            &&& out.len() > 0
            &&& out[0] == subvol_frame(renamed)
            &&& frame_kind(out[0]) == Some(BtrfsCommandType::BTRFS_SEND_C_SUBVOL)
            &&& subvol_spec(frame_payload(out[0])) == Ok::<(SubvolModel, nat), crate::btrfs::BtrfsParseError>(
                (renamed, frame_payload(out[0]).len()),
            )
            &&& renamed.uuid == v.uuid
            &&& crate::btrfs::frame_crc(out[0]) == crate::bytes::le32_at(out[0], 6)
            &&& count_kind(out, BtrfsCommandType::BTRFS_SEND_C_SUBVOL) == 1
        }),
{
    let st0 = concat_start(ss.last()[0]).unwrap();
    let heads = ss.drop_last();
    let (st1, o1) = concat_run_streams(st0, heads).unwrap();
    let stl = ConcatState { last_pending: false, ..st1 };
    let (_, o2) = concat_run(stl, ss.last()).unwrap();
    let out = concat_spec(ss).unwrap();
    assert(out == o1 + o2);
    assert(heads[0] == ss[0]);
    lemma_streams_first(st0, heads);
    let f0 = ss[0][0];
    lemma_run_prefix(st0, ss[0], 1);
    assert(ss[0].subrange(0, 1).drop_last() =~= Seq::<Seq<u8>>::empty());
    assert(ss[0].subrange(0, 1).last() == f0);
    assert(concat_run(st0, Seq::<Seq<u8>>::empty()) == Ok::<(ConcatState, Seq<Seq<u8>>), BtrfsConcatError>((st0, Seq::empty())));
    lemma_first_subvol_step(st0, f0);
    let v = subvol_spec(frame_payload(f0)).unwrap().0;
    let name = snapshot_spec(frame_payload(ss.last()[0])).unwrap().0.name;
    let renamed = SubvolModel { name, ..v };
    let first = concat_run(st0, ss[0].subrange(0, 1)).unwrap().1;
    assert(first =~= seq![subvol_frame(renamed)]);
    assert(o1[0] == first[0]);
    assert(out[0] == o1[0]);
    lemma_subvol_frame_reads(renamed);
    lemma_concat_counts(ss);
    lemma_count_kind_pos(out, 0, BtrfsCommandType::BTRFS_SEND_C_SUBVOL);
}

proof fn lemma_count_kind_pos(s: Seq<Seq<u8>>, i: int, k: BtrfsCommandType)
    requires
        0 <= i < s.len(),
        frame_kind(s[i]) == Some(k),
    ensures
        count_kind(s, k) >= 1,
    decreases s.len(),
{
    if i < s.len() - 1 {
        assert(s.drop_last()[i] == s[i]);
        lemma_count_kind_pos(s.drop_last(), i, k);
    }
}

proof fn lemma_end_passes(st: ConcatState, f: Seq<u8>)
    requires
        concat_step(st, f) is Ok,
        !st.last_pending,
        frame_kind(f) == Some(BtrfsCommandType::BTRFS_SEND_C_END),
    ensures
        concat_step(st, f).unwrap().1 == Some(f),
{
    reveal(concat_step);
}

/// In a join that succeeds, when the last stream ends with END, the output
/// ends with that very frame.
pub proof fn lemma_concat_ends_with_last_end(ss: Seq<Seq<Seq<u8>>>)
    requires
        concat_spec(ss) is Ok,
        frame_kind(ss.last().last()) == Some(BtrfsCommandType::BTRFS_SEND_C_END),
    ensures
        concat_spec(ss).unwrap().len() > 0,
        concat_spec(ss).unwrap().last() == ss.last().last(),
{
    let st0 = concat_start(ss.last()[0]).unwrap();
    let (st1, o1) = concat_run_streams(st0, ss.drop_last()).unwrap();
    let stl = ConcatState { last_pending: false, ..st1 };
    let last = ss.last();
    let (_, o2) = concat_run(stl, last).unwrap();
    lemma_run_facts(stl, last.drop_last());
    let (stp, op) = concat_run(stl, last.drop_last()).unwrap();
    lemma_end_passes(stp, last.last());
    assert(o2 == op + emitted(Some(last.last())));
    let out = concat_spec(ss).unwrap();
    assert(out == o1 + o2);
    assert(out.last() == o2.last());
}

} // verus!

verus! {

/// When every frame before `fs[j]` passes and `fs[j]` is a SNAPSHOT not
/// cloned from the UUID they left current, the run halts with a chain
/// break, and nothing of it is emitted.
pub proof fn lemma_run_halts_on_chain_break(st: ConcatState, fs: Seq<Seq<u8>>, j: int)
    requires
        0 <= j < fs.len(),
        concat_run(st, fs.subrange(0, j)) is Ok,
        frame_kind(fs[j]) == Some(BtrfsCommandType::BTRFS_SEND_C_SNAPSHOT),
        snapshot_spec(frame_payload(fs[j])) is Ok,
        trailing_uuid(st.curr, fs.subrange(0, j)) != Some(snapshot_spec(frame_payload(fs[j])).unwrap().0.clone_uuid),
    ensures
        concat_run(st, fs) == Err::<(ConcatState, Seq<Seq<u8>>), BtrfsConcatError>(BtrfsConcatError::ChainBreak),
{
    let pre = fs.subrange(0, j);
    lemma_run_chain(st, pre);
    let (stj, _) = concat_run(st, pre).unwrap();
    lemma_step_chain_break(stj, fs[j]);
    assert(fs.subrange(0, j + 1).drop_last() =~= pre);
    assert(fs.subrange(0, j + 1).last() == fs[j]);
    lemma_run_prefix_err(st, fs, j + 1, BtrfsConcatError::ChainBreak);
}

/// The same for a whole join: when the streams before stream `i` (not the
/// last) and the frames of stream `i` before its frame `j` pass, and that
/// frame is a SNAPSHOT not cloned from the UUID they left current, the
/// join fails with a chain break.
pub proof fn lemma_concat_halts_on_chain_break(ss: Seq<Seq<Seq<u8>>>, i: int, j: int)
    requires
        ss.len() >= 2,
        ss.last().len() > 0,
        concat_start(ss.last()[0]) is Ok,
        0 <= i < ss.len() - 1,
        0 <= j < ss[i].len(),
        concat_run_streams(concat_start(ss.last()[0]).unwrap(), ss.subrange(0, i)) is Ok,
        concat_run(concat_run_streams(concat_start(ss.last()[0]).unwrap(), ss.subrange(0, i)).unwrap().0, ss[i].subrange(0, j)) is Ok,
        frame_kind(ss[i][j]) == Some(BtrfsCommandType::BTRFS_SEND_C_SNAPSHOT),
        snapshot_spec(frame_payload(ss[i][j])) is Ok,
        trailing_uuid(
            concat_run_streams(concat_start(ss.last()[0]).unwrap(), ss.subrange(0, i)).unwrap().0.curr,
            ss[i].subrange(0, j),
        ) != Some(snapshot_spec(frame_payload(ss[i][j])).unwrap().0.clone_uuid),
    ensures
        concat_spec(ss) == Err::<Seq<Seq<u8>>, BtrfsConcatError>(BtrfsConcatError::ChainBreak),
{
    let st0 = concat_start(ss.last()[0]).unwrap();
    let heads = ss.drop_last();
    let sti = concat_run_streams(st0, ss.subrange(0, i)).unwrap().0;
    lemma_run_halts_on_chain_break(sti, ss[i], j);
    assert(heads.subrange(0, i + 1).drop_last() =~= ss.subrange(0, i));
    assert(heads.subrange(0, i + 1).last() == ss[i]);
    lemma_streams_prefix_err(st0, heads, i + 1, BtrfsConcatError::ChainBreak);
}

} // verus!

verus! {

/// When the streams before the last pass and the last stream's SNAPSHOT is
/// not cloned from the UUID they left current, the join fails with a chain
/// break.
pub proof fn lemma_concat_halts_on_last_chain_break(ss: Seq<Seq<Seq<u8>>>)
    requires
        ss.len() >= 2,
        ss.last().len() > 0,
        concat_start(ss.last()[0]) is Ok,
        concat_run_streams(concat_start(ss.last()[0]).unwrap(), ss.drop_last()) is Ok,
        trailing_uuid_streams(None, ss.drop_last()) != Some(snapshot_spec(frame_payload(ss.last()[0])).unwrap().0.clone_uuid),
    ensures
        concat_spec(ss) == Err::<Seq<Seq<u8>>, BtrfsConcatError>(BtrfsConcatError::ChainBreak),
{
    let st0 = concat_start(ss.last()[0]).unwrap();
    lemma_streams_facts(st0, ss.drop_last());
    let st1 = concat_run_streams(st0, ss.drop_last()).unwrap().0;
    let stl = ConcatState { last_pending: false, ..st1 };
    let last = ss.last();
    lemma_step_chain_break(stl, last[0]);
    assert(last.subrange(0, 1).drop_last() =~= Seq::<Seq<u8>>::empty());
    assert(last.subrange(0, 1).last() == last[0]);
    assert(concat_run(stl, Seq::<Seq<u8>>::empty()) == Ok::<(ConcatState, Seq<Seq<u8>>), BtrfsConcatError>((stl, Seq::empty())));
    lemma_run_prefix_err(stl, last, 1, BtrfsConcatError::ChainBreak);
}

} // verus!

verus! {

/// The frames `fs`, from the current UUID `c`, pass the chain check: each
/// SUBVOL reads and comes where no UUID is current yet, each SNAPSHOT reads
/// and was cloned from the UUID current before it.
pub open spec fn frames_chain_ok(c: Option<u128>, fs: Seq<Seq<u8>>) -> bool {
    forall|j: int|
        0 <= j < fs.len() ==> (frame_kind(#[trigger] fs[j]) == Some(BtrfsCommandType::BTRFS_SEND_C_SUBVOL) ==> subvol_spec(
            frame_payload(fs[j]),
        ) is Ok && trailing_uuid(c, fs.subrange(0, j)) is None) && (frame_kind(fs[j]) == Some(
            BtrfsCommandType::BTRFS_SEND_C_SNAPSHOT,
        ) ==> snapshot_spec(frame_payload(fs[j])) is Ok && trailing_uuid(c, fs.subrange(0, j)) == Some(
            snapshot_spec(frame_payload(fs[j])).unwrap().0.clone_uuid,
        ))
}

/// Every stream passes the chain check from the UUID the streams before it
/// left current, starting from none.
pub open spec fn streams_chain_ok(ss: Seq<Seq<Seq<u8>>>) -> bool {
    forall|i: int| 0 <= i < ss.len() ==> frames_chain_ok(#[trigger] trailing_uuid_streams(None, ss.subrange(0, i)), ss[i])
}

proof fn lemma_step_ok(st: ConcatState, f: Seq<u8>)
    requires
        frame_kind(f) == Some(BtrfsCommandType::BTRFS_SEND_C_SUBVOL) ==> subvol_spec(frame_payload(f)) is Ok && st.curr is None,
        frame_kind(f) == Some(BtrfsCommandType::BTRFS_SEND_C_SNAPSHOT) ==> snapshot_spec(frame_payload(f)) is Ok && st.curr
            == Some(snapshot_spec(frame_payload(f)).unwrap().0.clone_uuid),
    ensures
        concat_step(st, f) is Ok,
{
    reveal(concat_step);
}

proof fn lemma_run_ok(st: ConcatState, fs: Seq<Seq<u8>>)
    requires
        frames_chain_ok(st.curr, fs),
    ensures
        concat_run(st, fs) is Ok,
        concat_run(st, fs).unwrap().0.curr == trailing_uuid(st.curr, fs),
    decreases fs.len(),
{
    if fs.len() > 0 {
        let p = fs.drop_last();
        assert forall|j: int| 0 <= j < p.len() implies (frame_kind(#[trigger] p[j]) == Some(BtrfsCommandType::BTRFS_SEND_C_SUBVOL) ==> subvol_spec(
            frame_payload(p[j]),
        ) is Ok && trailing_uuid(st.curr, p.subrange(0, j)) is None) && (frame_kind(p[j]) == Some(
            BtrfsCommandType::BTRFS_SEND_C_SNAPSHOT,
        ) ==> snapshot_spec(frame_payload(p[j])) is Ok && trailing_uuid(st.curr, p.subrange(0, j)) == Some(
            snapshot_spec(frame_payload(p[j])).unwrap().0.clone_uuid,
        )) by {
            assert(p[j] == fs[j]);
            assert(p.subrange(0, j) =~= fs.subrange(0, j));
        }
        lemma_run_ok(st, p);
        let st1 = concat_run(st, p).unwrap().0;
        let j = fs.len() - 1;
        assert(fs.subrange(0, j) =~= p);
        assert(fs[j] == fs.last());
        lemma_step_ok(st1, fs.last());
        lemma_step_curr(st1, fs.last());
        lemma_trailing_push(st.curr, p, fs.last());
        assert(p.push(fs.last()) =~= fs);
    }
}

proof fn lemma_streams_ok(st: ConcatState, ss: Seq<Seq<Seq<u8>>>)
    requires
        forall|i: int| 0 <= i < ss.len() ==> frames_chain_ok(#[trigger] trailing_uuid_streams(st.curr, ss.subrange(0, i)), ss[i]),
    ensures
        concat_run_streams(st, ss) is Ok,
        concat_run_streams(st, ss).unwrap().0.curr == trailing_uuid_streams(st.curr, ss),
    decreases ss.len(),
{
    if ss.len() > 0 {
        let p = ss.drop_last();
        assert forall|i: int| 0 <= i < p.len() implies frames_chain_ok(#[trigger] trailing_uuid_streams(st.curr, p.subrange(0, i)), p[i]) by {
            assert(p.subrange(0, i) =~= ss.subrange(0, i));
            assert(p[i] == ss[i]);
            assert(frames_chain_ok(trailing_uuid_streams(st.curr, ss.subrange(0, i)), ss[i]));
        }
        lemma_streams_ok(st, p);
        let st1 = concat_run_streams(st, p).unwrap().0;
        let i = ss.len() - 1;
        assert(ss.subrange(0, i) =~= p);
        assert(frames_chain_ok(trailing_uuid_streams(st.curr, ss.subrange(0, i)), ss[i]));
        assert(ss[i] == ss.last());
        lemma_run_ok(st1, ss.last());
    }
}

/// A join of at least two streams whose last one starts with a SNAPSHOT
/// that reads, and whose frames all pass the chain check in order,
/// succeeds; the laws above then apply to its output.
pub proof fn lemma_concat_succeeds(ss: Seq<Seq<Seq<u8>>>)
    requires
        ss.len() >= 2,
        ss.last().len() > 0,
        frame_kind(ss.last()[0]) == Some(BtrfsCommandType::BTRFS_SEND_C_SNAPSHOT),
        snapshot_spec(frame_payload(ss.last()[0])) is Ok,
        streams_chain_ok(ss),
    ensures
        concat_spec(ss) is Ok,
{
    let st0 = concat_start(ss.last()[0]).unwrap();
    let heads = ss.drop_last();
    assert forall|i: int| 0 <= i < heads.len() implies frames_chain_ok(#[trigger] trailing_uuid_streams(st0.curr, heads.subrange(0, i)), heads[i]) by {
        assert(heads.subrange(0, i) =~= ss.subrange(0, i));
        assert(heads[i] == ss[i]);
        assert(frames_chain_ok(trailing_uuid_streams(None, ss.subrange(0, i)), ss[i]));
    }
    lemma_streams_ok(st0, heads);
    let st1 = concat_run_streams(st0, heads).unwrap().0;
    let stl = ConcatState { last_pending: false, ..st1 };
    let k = ss.len() - 1;
    assert(ss.subrange(0, k) =~= heads);
    assert(frames_chain_ok(trailing_uuid_streams(None, ss.subrange(0, k)), ss[k]));
    assert(ss[k] == ss.last());
    lemma_run_ok(stl, ss.last());
}

} // verus!
