//! The send-stream codec: the stream header, command frames and their kinds.
use vstd::prelude::*;
use crate::bytes::{
    le16_at, le16_bytes, le32_at, le32_bytes, read_le16, read_le32, push_le16, push_le32, push_all,
    lemma_le16_round_trip, lemma_le32_round_trip, lemma_le16_bytes_of, lemma_le32_bytes_of, ByteReader,
};
use crate::crc32::{crc32c, crc32c_spec, lemma_crc32c_append};

verus! {

/// How reading from a byte source failed.
#[derive(Clone, Copy, Debug, PartialEq, Eq, Structural)]
pub enum ReadErrorKind {
    /// The source ended before the value was complete.
    EndOfFile,
    /// The source itself failed.
    Other,
}

/// Why a stream or payload was rejected as malformed.
#[derive(Clone, Copy, Debug, PartialEq, Eq, Structural)]
pub enum ProtocolReason {
    /// The stream does not start with the send-stream magic.
    InvalidMagic,
    /// The source ended inside a frame's payload.
    TruncatedFrame,
    /// A frame carries a command number that names no known kind.
    UnknownCommand(u16),
    /// A payload holds an attribute of another type than the one expected
    /// at that place; the type found is given.
    UnexpectedTag(u16),
    /// An attribute of fixed size has another length.
    BadLength { tag: u16, len: u16 },
    /// A frame is not of the kind the payload decoder was asked for.
    WrongCommand(u16),
}

#[derive(Clone, Copy, Debug, PartialEq, Eq, Structural)]
pub enum BtrfsParseError {
    InvalidVersion,
    ProtocolError(ProtocolReason),
    ReadError(ReadErrorKind),
}

impl BtrfsParseError {
    /// Whether the error is the source ending where a value should begin.
    pub fn is_eof(err: &BtrfsParseError) -> (r: bool)
        ensures
            r == (*err == BtrfsParseError::ReadError(ReadErrorKind::EndOfFile)),
    {
        match err {
            BtrfsParseError::ReadError(ReadErrorKind::EndOfFile) => true,
            _ => false,
        }
    }
}

pub open spec fn eof_error() -> BtrfsParseError {
    BtrfsParseError::ReadError(ReadErrorKind::EndOfFile)
}

pub open spec fn protocol_error(r: ProtocolReason) -> BtrfsParseError {
    BtrfsParseError::ProtocolError(r)
}

#[allow(non_camel_case_types)]
#[derive(Clone, Copy, Debug, PartialEq, Eq, Structural)]
pub enum BtrfsCommandType {
    BTRFS_SEND_C_UNSPEC,
    BTRFS_SEND_C_SUBVOL,
    BTRFS_SEND_C_SNAPSHOT,
    BTRFS_SEND_C_MKFILE,
    BTRFS_SEND_C_MKDIR,
    BTRFS_SEND_C_MKNOD,
    BTRFS_SEND_C_MKFIFO,
    BTRFS_SEND_C_MKSOCK,
    BTRFS_SEND_C_SYMLINK,
    BTRFS_SEND_C_RENAME,
    BTRFS_SEND_C_LINK,
    BTRFS_SEND_C_UNLINK,
    BTRFS_SEND_C_RMDIR,
    BTRFS_SEND_C_SET_XATTR,
    BTRFS_SEND_C_REMOVE_XATTR,
    BTRFS_SEND_C_WRITE,
    BTRFS_SEND_C_CLONE,
    BTRFS_SEND_C_TRUNCATE,
    BTRFS_SEND_C_CHMOD,
    BTRFS_SEND_C_CHOWN,
    BTRFS_SEND_C_UTIMES,
    BTRFS_SEND_C_END,
    BTRFS_SEND_C_UPDATE_EXTENT,
}

/// The command number of each kind on the wire.
pub open spec fn kind_code(k: BtrfsCommandType) -> u16 {
    match k {
        BtrfsCommandType::BTRFS_SEND_C_UNSPEC => 0,
        BtrfsCommandType::BTRFS_SEND_C_SUBVOL => 1,
        BtrfsCommandType::BTRFS_SEND_C_SNAPSHOT => 2,
        BtrfsCommandType::BTRFS_SEND_C_MKFILE => 3,
        BtrfsCommandType::BTRFS_SEND_C_MKDIR => 4,
        BtrfsCommandType::BTRFS_SEND_C_MKNOD => 5,
        BtrfsCommandType::BTRFS_SEND_C_MKFIFO => 6,
        BtrfsCommandType::BTRFS_SEND_C_MKSOCK => 7,
        BtrfsCommandType::BTRFS_SEND_C_SYMLINK => 8,
        BtrfsCommandType::BTRFS_SEND_C_RENAME => 9,
        BtrfsCommandType::BTRFS_SEND_C_LINK => 10,
        BtrfsCommandType::BTRFS_SEND_C_UNLINK => 11,
        BtrfsCommandType::BTRFS_SEND_C_RMDIR => 12,
        BtrfsCommandType::BTRFS_SEND_C_SET_XATTR => 13,
        BtrfsCommandType::BTRFS_SEND_C_REMOVE_XATTR => 14,
        BtrfsCommandType::BTRFS_SEND_C_WRITE => 15,
        BtrfsCommandType::BTRFS_SEND_C_CLONE => 16,
        BtrfsCommandType::BTRFS_SEND_C_TRUNCATE => 17,
        BtrfsCommandType::BTRFS_SEND_C_CHMOD => 18,
        BtrfsCommandType::BTRFS_SEND_C_CHOWN => 19,
        BtrfsCommandType::BTRFS_SEND_C_UTIMES => 20,
        BtrfsCommandType::BTRFS_SEND_C_END => 21,
        BtrfsCommandType::BTRFS_SEND_C_UPDATE_EXTENT => 22,
    }
}

/// The kind that a command number names, if any.
pub open spec fn kind_of_code(c: u16) -> Option<BtrfsCommandType> {
    if c <= 22 {
        Some(choose|k: BtrfsCommandType| kind_code(k) == c)
    } else {
        None
    }
}

pub proof fn lemma_kind_code_injective(a: BtrfsCommandType, b: BtrfsCommandType)
    ensures
        kind_code(a) == kind_code(b) ==> a == b,
        kind_code(a) <= 22,
{
}

pub proof fn lemma_kind_of_code(c: u16)
    ensures
        kind_of_code(c) matches Some(k) ==> kind_code(k) == c,
        kind_of_code(c) is None <==> c > 22,
{
    if c <= 22 {
        let w = kind_from_u16_witness(c);
        assert(kind_code(w) == c);
    }
}

pub proof fn lemma_kind_of_kind_code(k: BtrfsCommandType)
    ensures
        kind_of_code(kind_code(k)) == Some(k),
{
    let c = kind_code(k);
    lemma_kind_of_code(c);
    let j = kind_of_code(c).unwrap();
    lemma_kind_code_injective(j, k);
}

spec fn kind_from_u16_witness(c: u16) -> BtrfsCommandType {
    if c == 0 {
        BtrfsCommandType::BTRFS_SEND_C_UNSPEC
    } else if c == 1 {
        BtrfsCommandType::BTRFS_SEND_C_SUBVOL
    } else if c == 2 {
        BtrfsCommandType::BTRFS_SEND_C_SNAPSHOT
    } else if c == 3 {
        BtrfsCommandType::BTRFS_SEND_C_MKFILE
    } else if c == 4 {
        BtrfsCommandType::BTRFS_SEND_C_MKDIR
    } else if c == 5 {
        BtrfsCommandType::BTRFS_SEND_C_MKNOD
    } else if c == 6 {
        BtrfsCommandType::BTRFS_SEND_C_MKFIFO
    } else if c == 7 {
        BtrfsCommandType::BTRFS_SEND_C_MKSOCK
    } else if c == 8 {
        BtrfsCommandType::BTRFS_SEND_C_SYMLINK
    } else if c == 9 {
        BtrfsCommandType::BTRFS_SEND_C_RENAME
    } else if c == 10 {
        BtrfsCommandType::BTRFS_SEND_C_LINK
    } else if c == 11 {
        BtrfsCommandType::BTRFS_SEND_C_UNLINK
    } else if c == 12 {
        BtrfsCommandType::BTRFS_SEND_C_RMDIR
    } else if c == 13 {
        BtrfsCommandType::BTRFS_SEND_C_SET_XATTR
    } else if c == 14 {
        BtrfsCommandType::BTRFS_SEND_C_REMOVE_XATTR
    } else if c == 15 {
        BtrfsCommandType::BTRFS_SEND_C_WRITE
    } else if c == 16 {
        BtrfsCommandType::BTRFS_SEND_C_CLONE
    } else if c == 17 {
        BtrfsCommandType::BTRFS_SEND_C_TRUNCATE
    } else if c == 18 {
        BtrfsCommandType::BTRFS_SEND_C_CHMOD
    } else if c == 19 {
        BtrfsCommandType::BTRFS_SEND_C_CHOWN
    } else if c == 20 {
        BtrfsCommandType::BTRFS_SEND_C_UTIMES
    } else if c == 21 {
        BtrfsCommandType::BTRFS_SEND_C_END
    } else {
        BtrfsCommandType::BTRFS_SEND_C_UPDATE_EXTENT
    }
}

impl BtrfsCommandType {
    /// The command number of this kind.
    pub fn to_u16(&self) -> (r: u16)
        ensures
            r == kind_code(*self),
    {
        match self {
            BtrfsCommandType::BTRFS_SEND_C_UNSPEC => 0,
            BtrfsCommandType::BTRFS_SEND_C_SUBVOL => 1,
            BtrfsCommandType::BTRFS_SEND_C_SNAPSHOT => 2,
            BtrfsCommandType::BTRFS_SEND_C_MKFILE => 3,
            BtrfsCommandType::BTRFS_SEND_C_MKDIR => 4,
            BtrfsCommandType::BTRFS_SEND_C_MKNOD => 5,
            BtrfsCommandType::BTRFS_SEND_C_MKFIFO => 6,
            BtrfsCommandType::BTRFS_SEND_C_MKSOCK => 7,
            BtrfsCommandType::BTRFS_SEND_C_SYMLINK => 8,
            BtrfsCommandType::BTRFS_SEND_C_RENAME => 9,
            BtrfsCommandType::BTRFS_SEND_C_LINK => 10,
            BtrfsCommandType::BTRFS_SEND_C_UNLINK => 11,
            BtrfsCommandType::BTRFS_SEND_C_RMDIR => 12,
            BtrfsCommandType::BTRFS_SEND_C_SET_XATTR => 13,
            BtrfsCommandType::BTRFS_SEND_C_REMOVE_XATTR => 14,
            BtrfsCommandType::BTRFS_SEND_C_WRITE => 15,
            BtrfsCommandType::BTRFS_SEND_C_CLONE => 16,
            BtrfsCommandType::BTRFS_SEND_C_TRUNCATE => 17,
            BtrfsCommandType::BTRFS_SEND_C_CHMOD => 18,
            BtrfsCommandType::BTRFS_SEND_C_CHOWN => 19,
            BtrfsCommandType::BTRFS_SEND_C_UTIMES => 20,
            BtrfsCommandType::BTRFS_SEND_C_END => 21,
            BtrfsCommandType::BTRFS_SEND_C_UPDATE_EXTENT => 22,
        }
    }

    /// The kind that command number `c` names, if any.
    pub fn from_u16(c: u16) -> (r: Option<BtrfsCommandType>)
        ensures
            r == kind_of_code(c),
    {
        proof {
            lemma_kind_of_code(c);
        }
        let r = if c > 22 {
            None
        } else {
            Some(
                if c == 0 {
                    BtrfsCommandType::BTRFS_SEND_C_UNSPEC
                } else if c == 1 {
                    BtrfsCommandType::BTRFS_SEND_C_SUBVOL
                } else if c == 2 {
                    BtrfsCommandType::BTRFS_SEND_C_SNAPSHOT
                } else if c == 3 {
                    BtrfsCommandType::BTRFS_SEND_C_MKFILE
                } else if c == 4 {
                    BtrfsCommandType::BTRFS_SEND_C_MKDIR
                } else if c == 5 {
                    BtrfsCommandType::BTRFS_SEND_C_MKNOD
                } else if c == 6 {
                    BtrfsCommandType::BTRFS_SEND_C_MKFIFO
                } else if c == 7 {
                    BtrfsCommandType::BTRFS_SEND_C_MKSOCK
                } else if c == 8 {
                    BtrfsCommandType::BTRFS_SEND_C_SYMLINK
                } else if c == 9 {
                    BtrfsCommandType::BTRFS_SEND_C_RENAME
                } else if c == 10 {
                    BtrfsCommandType::BTRFS_SEND_C_LINK
                } else if c == 11 {
                    BtrfsCommandType::BTRFS_SEND_C_UNLINK
                } else if c == 12 {
                    BtrfsCommandType::BTRFS_SEND_C_RMDIR
                } else if c == 13 {
                    BtrfsCommandType::BTRFS_SEND_C_SET_XATTR
                } else if c == 14 {
                    BtrfsCommandType::BTRFS_SEND_C_REMOVE_XATTR
                } else if c == 15 {
                    BtrfsCommandType::BTRFS_SEND_C_WRITE
                } else if c == 16 {
                    BtrfsCommandType::BTRFS_SEND_C_CLONE
                } else if c == 17 {
                    BtrfsCommandType::BTRFS_SEND_C_TRUNCATE
                } else if c == 18 {
                    BtrfsCommandType::BTRFS_SEND_C_CHMOD
                } else if c == 19 {
                    BtrfsCommandType::BTRFS_SEND_C_CHOWN
                } else if c == 20 {
                    BtrfsCommandType::BTRFS_SEND_C_UTIMES
                } else if c == 21 {
                    BtrfsCommandType::BTRFS_SEND_C_END
                } else {
                    BtrfsCommandType::BTRFS_SEND_C_UPDATE_EXTENT
                },
            )
        };
        proof {
            if c <= 22 {
                lemma_kind_code_injective(r.unwrap(), kind_of_code(c).unwrap());
            }
        }
        r
    }
}

} // verus!

verus! {

/// The thirteen bytes that open every send stream: `btrfs-stream` and a NUL.
pub open spec fn stream_magic() -> Seq<u8> {
    seq![98u8, 116u8, 114u8, 102u8, 115u8, 45u8, 115u8, 116u8, 114u8, 101u8, 97u8, 109u8, 0u8]
}

/// The only stream version this codec reads and writes.
pub const BTRFS_STREAM_VERSION: u32 = 1;

fn stream_magic_bytes() -> (r: Vec<u8>)
    ensures
        r@ == stream_magic(),
{
    let r = vec![98u8, 116u8, 114u8, 102u8, 115u8, 45u8, 115u8, 116u8, 114u8, 101u8, 97u8, 109u8, 0u8];
    assert(r@ =~= stream_magic());
    r
}

/// What reading a stream header from `s` gives: its version and the number
/// of bytes it takes.
pub open spec fn header_spec(s: Seq<u8>) -> Result<(u32, nat), BtrfsParseError> {
    if s.len() < 13 {
        Err(eof_error())
    } else if s.subrange(0, 13) != stream_magic() {
        Err(protocol_error(ProtocolReason::InvalidMagic))
    } else if s.len() < 17 {
        Err(eof_error())
    } else if le32_at(s, 13) != 1 {
        Err(BtrfsParseError::InvalidVersion)
    } else {
        Ok((le32_at(s, 13), 17))
    }
}

/// The bytes that reading a header from `s` consumes: the whole header when
/// it is accepted or its version is wrong, the magic alone when the magic
/// is wrong, and nothing when the source ends first.
pub open spec fn header_taken(s: Seq<u8>) -> nat {
    match header_spec(s) {
        Ok((_, n)) => n,
        Err(BtrfsParseError::ProtocolError(ProtocolReason::InvalidMagic)) => 13,
        Err(BtrfsParseError::InvalidVersion) => 17,
        Err(_) => 0,
    }
}

/// The bytes of a stream header of version `v`.
pub open spec fn header_bytes(v: u32) -> Seq<u8> {
    stream_magic() + le32_bytes(v)
}

#[derive(Debug)]
pub struct BtrfsHeader {
    pub version: u32,
}

impl BtrfsHeader {
    /// Reads a header from the start of `data`.
    pub fn load(data: &[u8]) -> (r: Result<BtrfsHeader, BtrfsParseError>)
        ensures
            match r {
                Ok(h) => header_spec(data@) == Ok::<(u32, nat), BtrfsParseError>((h.version, 17)),
                Err(e) => header_spec(data@) == Err::<(u32, nat), BtrfsParseError>(e),
            },
    {
        let mut reader = ByteReader::new(data);
        BtrfsHeader::parse(&mut reader)
    }

    /// Reads a header: the magic, then a version that must be 1. A wrong
    /// magic consumes the magic and leaves the version unread; a wrong
    /// version consumes the header; a source that ends early consumes nothing.
    pub fn parse(reader: &mut ByteReader) -> (r: Result<BtrfsHeader, BtrfsParseError>)
        ensures
            match r {
                Ok(h) => header_spec(old(reader)@) == Ok::<(u32, nat), BtrfsParseError>(
                    (h.version, 17),
                ) && final(reader)@ == old(reader)@.subrange(17, old(reader)@.len() as int),
                Err(e) => header_spec(old(reader)@) == Err::<(u32, nat), BtrfsParseError>(e)
                    && final(reader)@ == old(reader)@.subrange(header_taken(old(reader)@) as int, old(reader)@.len() as int),
            },
    {
        assert(old(reader)@.subrange(0, old(reader)@.len() as int) =~= old(reader)@);
        let s = reader.peek();
        if s.len() < 13 {
            return Err(BtrfsParseError::ReadError(ReadErrorKind::EndOfFile));
        }
        let magic = stream_magic_bytes();
        let mut i: usize = 0;
        while i < 13
            invariant
                i <= 13,
                s@.len() >= 13,
                s@ == old(reader)@,
                reader@ == old(reader)@,
                magic@ == stream_magic(),
                s@.subrange(0, i as int) == magic@.subrange(0, i as int),
            decreases 13 - i,
        {
            if s[i] != magic[i] {
                assert(s@.subrange(0, 13)[i as int] != stream_magic()[i as int]);
                assert(s@.subrange(0, 13) != stream_magic());
                reader.advance(13);
                return Err(BtrfsParseError::ProtocolError(ProtocolReason::InvalidMagic));
            }
            assert(s@.subrange(0, i + 1) =~= magic@.subrange(0, i + 1));
            i = i + 1;
        }
        assert(magic@.subrange(0, 13) =~= stream_magic());
        if s.len() < 17 {
            return Err(BtrfsParseError::ReadError(ReadErrorKind::EndOfFile));
        }
        let version = read_le32(s, 13);
        if version != BTRFS_STREAM_VERSION {
            reader.advance(17);
            return Err(BtrfsParseError::InvalidVersion);
        }
        reader.advance(17);
        Ok(BtrfsHeader { version })
    }

    /// The header's seventeen bytes.
    pub fn serialize(&self) -> (r: Vec<u8>)
        ensures
            r@ == header_bytes(self.version),
    {
        let mut out = stream_magic_bytes();
        push_le32(&mut out, self.version);
        out
    }
}

/// A header that `serialize` wrote reads back as itself when its version is
/// 1, and as `InvalidVersion` otherwise; bytes that do not start with the
/// magic are a protocol error.
pub proof fn lemma_header_round_trip(v: u32, s: Seq<u8>)
    ensures
        header_spec(header_bytes(v)) == if v == 1 {
            Ok::<(u32, nat), BtrfsParseError>((v, 17))
        } else {
            Err(BtrfsParseError::InvalidVersion)
        },
        s.len() >= 13 && s.subrange(0, 13) != stream_magic() ==> header_spec(s) == Err::<
            (u32, nat),
            BtrfsParseError,
        >(protocol_error(ProtocolReason::InvalidMagic)),
{
    let b = header_bytes(v);
    assert(b.subrange(0, 13) =~= stream_magic());
    assert(b.subrange(13, 17) =~= le32_bytes(v));
    lemma_le32_round_trip(v);
    assert(le32_at(b, 13) == le32_at(le32_bytes(v), 0));
}

} // verus!

verus! {

/// What reading one frame from `s` gives: the number of bytes it takes.
/// Fewer than four bytes is the end of the source; a payload cut short is
/// a protocol error.
pub open spec fn frame_len_spec(s: Seq<u8>) -> Result<nat, BtrfsParseError> {
    if s.len() < 4 {
        Err(eof_error())
    } else if s.len() < 10 + le32_at(s, 0) {
        Err(protocol_error(ProtocolReason::TruncatedFrame))
    } else {
        Ok((10 + le32_at(s, 0)) as nat)
    }
}

/// A frame as it stands on the wire: header of ten bytes, then payload.
pub open spec fn frame_wf(f: Seq<u8>) -> bool {
    f.len() >= 10 && f.len() == 10 + le32_at(f, 0)
}

/// Four zero bytes: the CRC field while the CRC is computed.
pub open spec fn zero4() -> Seq<u8> {
    seq![0u8, 0u8, 0u8, 0u8]
}

/// The CRC of a frame: over its bytes with the CRC field zeroed.
pub open spec fn frame_crc(f: Seq<u8>) -> u32 {
    crc32c_spec(0, f.subrange(0, 6) + zero4() + f.subrange(10, f.len() as int))
}

/// A typed command as a value: its fields, with the payload as a sequence.
pub struct CommandModel {
    pub len: u32,
    pub kind: BtrfsCommandType,
    pub crc32: u32,
    pub data: Seq<u8>,
}

/// The canonical CRC of a command: over length, kind, four zero bytes and
/// payload.
pub open spec fn command_crc(c: CommandModel) -> u32 {
    crc32c_spec(0, le32_bytes(c.len) + le16_bytes(kind_code(c.kind)) + zero4() + c.data)
}

/// The command with its CRC field replaced by the canonical CRC.
pub open spec fn with_crc(c: CommandModel) -> CommandModel {
    CommandModel { crc32: command_crc(c), ..c }
}

/// The bytes of a command as written: the fields as they stand.
pub open spec fn command_bytes(c: CommandModel) -> Seq<u8> {
    le32_bytes(c.len) + le16_bytes(kind_code(c.kind)) + le32_bytes(c.crc32) + c.data
}

/// The typed command that a well-formed frame holds.
pub open spec fn command_of_frame(f: Seq<u8>) -> Result<CommandModel, BtrfsParseError> {
    match kind_of_code(le16_at(f, 4)) {
        None => Err(protocol_error(ProtocolReason::UnknownCommand(le16_at(f, 4)))),
        Some(k) => Ok(
            CommandModel {
                len: le32_at(f, 0),
                kind: k,
                crc32: le32_at(f, 6),
                data: f.subrange(10, f.len() as int),
            },
        ),
    }
}

/// What reading one typed command from `s` gives, with the bytes it takes.
pub open spec fn command_spec(s: Seq<u8>) -> Result<(CommandModel, nat), BtrfsParseError> {
    match frame_len_spec(s) {
        Err(e) => Err(e),
        Ok(n) => match command_of_frame(s.subrange(0, n as int)) {
            Err(e) => Err(e),
            Ok(c) => Ok((c, n)),
        },
    }
}

/// A frame exactly as it was read, header included.
pub struct BtrfsCommandBuf(pub Vec<u8>);

impl BtrfsCommandBuf {
    pub open spec fn wf(&self) -> bool {
        frame_wf(self.0@)
    }

    /// The kind in the frame header, if the number names one.
    pub fn get_kind(&self) -> (r: Option<BtrfsCommandType>)
        requires
            self.0@.len() >= 10,
        ensures
            r == kind_of_code(le16_at(self.0@, 4)),
    {
        BtrfsCommandType::from_u16(read_le16(self.0.as_slice(), 4))
    }

    /// The CRC stored in the frame header.
    pub fn get_crc32(&self) -> (r: u32)
        requires
            self.0@.len() >= 10,
        ensures
            r == le32_at(self.0@, 6),
    {
        read_le32(self.0.as_slice(), 6)
    }

    /// The payload that follows the frame header.
    pub fn get_data(&self) -> (r: &[u8])
        requires
            self.0@.len() >= 10,
        ensures
            r@ == self.0@.subrange(10, self.0@.len() as int),
    {
        vstd::slice::slice_subrange(self.0.as_slice(), 10, self.0.len())
    }

    /// Whether the stored CRC is the one the frame's bytes give.
    pub fn validate_crc32(&self) -> (r: bool)
        requires
            self.0@.len() >= 10,
        ensures
            r == (frame_crc(self.0@) == le32_at(self.0@, 6)),
    {
        self.calculate_crc32() == self.get_crc32()
    }

    /// The CRC of the frame's bytes with the CRC field taken as zero.
    pub fn calculate_crc32(&self) -> (r: u32)
        requires
            self.0@.len() >= 10,
        ensures
            r == frame_crc(self.0@),
    {
        let buf = self.0.as_slice();
        let head = vstd::slice::slice_subrange(buf, 0, 6);
        let zeros: [u8; 4] = [0u8, 0u8, 0u8, 0u8];
        let tail = vstd::slice::slice_subrange(buf, 10, buf.len());
        let state = crc32c(0, head);
        assert(zeros@ =~= zero4());
        let state = crc32c(state, zeros.as_slice());
        let r = crc32c(state, tail);
        proof {
            lemma_crc32c_append(0, head@, zero4());
            lemma_crc32c_append(0, head@ + zero4(), tail@);
        }
        r
    }

    /// Reads one frame: a `u32` payload length, then the kind, CRC and
    /// payload. On success the frame's bytes are consumed; on failure
    /// nothing is.
    pub fn read(reader: &mut ByteReader) -> (r: Result<BtrfsCommandBuf, BtrfsParseError>)
        ensures
            match r {
                Ok(b) => frame_len_spec(old(reader)@) == Ok::<nat, BtrfsParseError>(b.0@.len())
                    && b.0@ == old(reader)@.subrange(0, b.0@.len() as int)
                    && final(reader)@ == old(reader)@.subrange(
                    b.0@.len() as int,
                    old(reader)@.len() as int,
                ) && b.wf(),
                Err(e) => frame_len_spec(old(reader)@) == Err::<nat, BtrfsParseError>(e)
                    && final(reader)@ == old(reader)@,
            },
    {
        let s = reader.peek();
        if s.len() < 4 {
            return Err(BtrfsParseError::ReadError(ReadErrorKind::EndOfFile));
        }
        let len = read_le32(s, 0);
        if (s.len() as u64) < 10 + (len as u64) {
            return Err(BtrfsParseError::ProtocolError(ProtocolReason::TruncatedFrame));
        }
        let n = 10 + len as usize;
        let frame = vstd::slice::slice_to_vec(vstd::slice::slice_subrange(s, 0, n));
        proof {
            assert(frame@ =~= s@.subrange(0, n as int));
            assert(le32_at(frame@, 0) == le32_at(s@, 0));
        }
        reader.advance(n);
        Ok(BtrfsCommandBuf(frame))
    }

    /// The typed command the frame holds; a kind number that names no kind
    /// is a protocol error.
    pub fn parse(&self) -> (r: Result<BtrfsCommand, BtrfsParseError>)
        requires
            self.wf(),
        ensures
            match r {
                Ok(c) => command_of_frame(self.0@) == Ok::<CommandModel, BtrfsParseError>(c@),
                Err(e) => command_of_frame(self.0@) == Err::<CommandModel, BtrfsParseError>(e),
            },
    {
        let buf = self.0.as_slice();
        let code = read_le16(buf, 4);
        match BtrfsCommandType::from_u16(code) {
            None => Err(BtrfsParseError::ProtocolError(ProtocolReason::UnknownCommand(code))),
            Some(kind) => {
                let data = vstd::slice::slice_to_vec(vstd::slice::slice_subrange(buf, 10, buf.len()));
                Ok(BtrfsCommand { len: read_le32(buf, 0), kind, crc32: read_le32(buf, 6), data })
            },
        }
    }
}

pub struct BtrfsCommand {
    pub len: u32,
    pub kind: BtrfsCommandType,
    pub crc32: u32,
    pub data: Vec<u8>,
}

impl View for BtrfsCommand {
    type V = CommandModel;

    open spec fn view(&self) -> CommandModel {
        CommandModel { len: self.len, kind: self.kind, crc32: self.crc32, data: self.data@ }
    }
}

impl BtrfsCommand {
    /// A command of `kind` over `data`, with its length and CRC filled in.
    pub fn from_kind(kind: BtrfsCommandType, data: Vec<u8>) -> (r: BtrfsCommand)
        requires
            data@.len() <= u32::MAX,
        ensures
            r@ == with_crc(CommandModel { len: data@.len() as u32, kind, crc32: 0, data: data@ }),
    {
        let mut out = BtrfsCommand { len: data.len() as u32, kind, crc32: 0, data };
        out.crc32 = out.calculate_crc32();
        out
    }

    /// Reads one command from the reader: a frame, destructured. On success
    /// the frame's bytes are consumed; on failure nothing is.
    pub fn parse(reader: &mut ByteReader) -> (r: Result<BtrfsCommand, BtrfsParseError>)
        ensures
            match r {
                Ok(c) => command_spec(old(reader)@) matches Ok((m, n)) && m == c@
                    && final(reader)@ == old(reader)@.subrange(n as int, old(reader)@.len() as int),
                Err(e) => command_spec(old(reader)@) == Err::<(CommandModel, nat), BtrfsParseError>(e)
                    && final(reader)@ == old(reader)@,
            },
    {
        let ghost start = reader@;
        let s = reader.peek();
        if s.len() < 4 {
            return Err(BtrfsParseError::ReadError(ReadErrorKind::EndOfFile));
        }
        let len = read_le32(s, 0);
        if (s.len() as u64) < 10 + (len as u64) {
            return Err(BtrfsParseError::ProtocolError(ProtocolReason::TruncatedFrame));
        }
        let n = 10 + len as usize;
        let frame = BtrfsCommandBuf(vstd::slice::slice_to_vec(vstd::slice::slice_subrange(s, 0, n)));
        assert(frame.0@ =~= s@.subrange(0, n as int));
        assert(le32_at(frame.0@, 0) == le32_at(s@, 0));
        let r = frame.parse();
        if r.is_ok() {
            reader.advance(n);
        }
        r
    }

    /// The command's bytes as written, with the CRC field set to the
    /// canonical CRC of the other fields.
    pub fn serialize(&self) -> (r: Vec<u8>)
        requires
            self.data@.len() == self.len,
        ensures
            r@ == command_bytes(with_crc(self@)),
    {
        let crc = self.calculate_crc32();
        let mut out: Vec<u8> = Vec::new();
        push_le32(&mut out, self.len);
        push_le16(&mut out, self.kind.to_u16());
        push_le32(&mut out, crc);
        push_all(&mut out, self.data.as_slice());
        out
    }

    /// Whether the stored CRC is the canonical one.
    pub fn validate_crc32(&self) -> (r: bool)
        requires
            self.data@.len() == self.len,
        ensures
            r == (self.crc32 == command_crc(self@)),
    {
        self.calculate_crc32() == self.crc32
    }

    /// The canonical CRC: over length, kind, four zero bytes and payload.
    pub fn calculate_crc32(&self) -> (r: u32)
        requires
            self.data@.len() == self.len,
        ensures
            r == command_crc(self@),
    {
        let mut buf: Vec<u8> = Vec::new();
        push_le32(&mut buf, self.len);
        push_le16(&mut buf, self.kind.to_u16());
        push_le32(&mut buf, 0);
        push_all(&mut buf, self.data.as_slice());
        proof {
            assert(le32_bytes(0) =~= zero4()) by {
                assert((0u32 & 0xff) as u8 == 0 && ((0u32 >> 8u32) & 0xff) as u8 == 0 && ((0u32
                    >> 16u32) & 0xff) as u8 == 0 && (0u32 >> 24u32) as u8 == 0) by (bit_vector);
            }
        }
        crc32c(0, buf.as_slice())
    }
}

} // verus!

verus! {

pub proof fn lemma_command_bytes_fields(c: CommandModel)
    requires
        c.data.len() == c.len,
    ensures
        ({
            let b = command_bytes(c);
            &&& b.len() == 10 + c.len
            &&& b.subrange(0, 4) == le32_bytes(c.len)
            &&& b.subrange(4, 6) == le16_bytes(kind_code(c.kind))
            &&& b.subrange(6, 10) == le32_bytes(c.crc32)
            &&& b.subrange(10, b.len() as int) == c.data
            &&& le32_at(b, 0) == c.len
            &&& le16_at(b, 4) == kind_code(c.kind)
            &&& le32_at(b, 6) == c.crc32
        }),
{
    let b = command_bytes(c);
    assert(b.subrange(0, 4) =~= le32_bytes(c.len));
    assert(b.subrange(4, 6) =~= le16_bytes(kind_code(c.kind)));
    assert(b.subrange(6, 10) =~= le32_bytes(c.crc32));
    assert(b.subrange(10, b.len() as int) =~= c.data);
    lemma_le32_round_trip(c.len);
    lemma_le16_round_trip(kind_code(c.kind));
    lemma_le32_round_trip(c.crc32);
    assert(le32_at(b, 0) == le32_at(le32_bytes(c.len), 0));
    assert(le16_at(b, 4) == le16_at(le16_bytes(kind_code(c.kind)), 0));
    assert(le32_at(b, 6) == le32_at(le32_bytes(c.crc32), 0));
}

/// A serialized command, whatever follows it, reads back as itself with the
/// canonical CRC, taking exactly its own 10 + len bytes; so a command whose
/// CRC is already canonical reads back unchanged.
#[verifier::rlimit(30)]
pub proof fn lemma_command_round_trip(c: CommandModel, rest: Seq<u8>)
    requires
        c.data.len() == c.len,
    ensures
        command_spec(command_bytes(with_crc(c)) + rest) == Ok::<(CommandModel, nat), BtrfsParseError>(
            (with_crc(c), (10 + c.len) as nat),
        ),
        c.crc32 == command_crc(c) ==> command_spec(command_bytes(c) + rest) == Ok::<
            (CommandModel, nat),
            BtrfsParseError,
        >((c, (10 + c.len) as nat)),
{
    let w = with_crc(c);
    let b = command_bytes(w);
    let s = b + rest;
    lemma_command_bytes_fields(w);
    lemma_kind_of_kind_code(c.kind);
    assert(le32_at(s, 0) == le32_at(b, 0));
    assert(le16_at(s, 4) == le16_at(b, 4));
    assert(le32_at(s, 6) == le32_at(b, 6));
    assert(s.subrange(0, b.len() as int) =~= b);
    assert(b.subrange(10, b.len() as int) == c.data);
    if c.crc32 == command_crc(c) {
        assert(w == c);
    }
}

/// Bytes that read as exactly one command whose CRC checks are what writing
/// that command gives.
pub proof fn lemma_command_reserialize(s: Seq<u8>, m: CommandModel)
    requires
        command_spec(s) == Ok::<(CommandModel, nat), BtrfsParseError>((m, s.len())),
        m.crc32 == command_crc(m),
    ensures
        command_bytes(m) == s,
{
    let n = s.len();
    {
        let k = le16_at(s, 4);
        lemma_kind_of_code(k);
        assert(s.subrange(0, n as int) =~= s);
        lemma_le32_bytes_of(s, 0);
        lemma_le16_bytes_of(s, 4);
        lemma_le32_bytes_of(s, 6);
        assert(command_bytes(m) =~= s.subrange(0, 4) + s.subrange(4, 6) + s.subrange(6, 10)
            + s.subrange(10, s.len() as int));
        assert(command_bytes(m) =~= s);
    }
}

/// The CRC of a frame's bytes, CRC field zeroed, is the canonical CRC of the
/// command it holds, whatever its stored CRC.
pub proof fn lemma_frame_crc_is_command_crc(c: CommandModel)
    requires
        c.data.len() == c.len,
    ensures
        frame_crc(command_bytes(c)) == command_crc(c),
{
    let b = command_bytes(c);
    lemma_command_bytes_fields(c);
    assert(b.subrange(0, 6) =~= le32_bytes(c.len) + le16_bytes(kind_code(c.kind)));
    assert(b.subrange(0, 6) + zero4() + b.subrange(10, b.len() as int) =~= le32_bytes(c.len)
        + le16_bytes(kind_code(c.kind)) + zero4() + c.data);
}

} // verus!
