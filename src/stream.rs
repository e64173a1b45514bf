//! Reading a whole send stream: the header once, then commands up to and
//! including END.
use vstd::prelude::*;
use crate::bytes::ByteReader;
use crate::btrfs::{
    BtrfsCommand, BtrfsCommandType, BtrfsHeader, BtrfsParseError, CommandModel, command_spec,
    header_spec, header_taken,
};

verus! {

/// What reading a stream header and then one command from `s` gives.
pub open spec fn first_command_spec(s: Seq<u8>) -> Result<CommandModel, BtrfsParseError> {
    match header_spec(s) {
        Err(e) => Err(e),
        Ok((_, n)) => match command_spec(s.subrange(n as int, s.len() as int)) {
            Err(e) => Err(e),
            Ok((c, _)) => Ok(c),
        },
    }
}

/// The commands of a stream, one at a time. After END, or after an error,
/// it yields nothing more: it does not try to find the next frame.
pub struct BtrfsCommandIter {
    pub reader: ByteReader,
    pub is_finished: bool,
}

impl BtrfsCommandIter {
    /// Reads and checks the stream header; the commands follow it.
    pub fn new(reader: ByteReader) -> (r: Result<BtrfsCommandIter, BtrfsParseError>)
        ensures
            match r {
                Ok(it) => header_spec(reader@) == Ok::<(u32, nat), BtrfsParseError>((1, 17))
                    && it.reader@ == reader@.subrange(17, reader@.len() as int) && !it.is_finished,
                Err(e) => header_spec(reader@) == Err::<(u32, nat), BtrfsParseError>(e),
            },
    {
        let mut reader = reader;
        match BtrfsHeader::parse(&mut reader) {
            Ok(_) => Ok(BtrfsCommandIter { reader, is_finished: false }),
            Err(e) => Err(e),
        }
    }

    /// The next command, or the error that ends the stream; `None` once the
    /// stream has ended.
    pub fn next(&mut self) -> (r: Option<Result<BtrfsCommand, BtrfsParseError>>)
        ensures
            old(self).is_finished ==> r is None && final(self).reader@ == old(self).reader@
                && final(self).is_finished,
            !old(self).is_finished ==> match r {
                Some(Ok(c)) => command_spec(old(self).reader@) matches Ok((m, n)) && m == c@
                    && final(self).reader@ == old(self).reader@.subrange(
                    n as int,
                    old(self).reader@.len() as int,
                ) && final(self).is_finished == (c.kind == BtrfsCommandType::BTRFS_SEND_C_END),
                Some(Err(e)) => command_spec(old(self).reader@) == Err::<(CommandModel, nat), BtrfsParseError>(e)
                    && final(self).is_finished,
                None => false,
            },
    {
        if self.is_finished {
            return None;
        }
        match BtrfsCommand::parse(&mut self.reader) {
            Ok(c) => {
                self.is_finished = c.kind == BtrfsCommandType::BTRFS_SEND_C_END;
                Some(Ok(c))
            },
            Err(e) => {
                self.is_finished = true;
                Some(Err(e))
            },
        }
    }
}

/// Reads a stream header and the command that follows it.
pub fn get_first_command(reader: &mut ByteReader) -> (r: Result<BtrfsCommand, BtrfsParseError>)
    ensures
        match r {
            Ok(c) => first_command_spec(old(reader)@) == Ok::<CommandModel, BtrfsParseError>(c@),
            Err(e) => first_command_spec(old(reader)@) == Err::<CommandModel, BtrfsParseError>(e),
        },
        header_spec(old(reader)@) is Err ==> final(reader)@ == old(reader)@.subrange(
            header_taken(old(reader)@) as int,
            old(reader)@.len() as int,
        ),
        header_spec(old(reader)@) is Ok && r is Err ==> final(reader)@ == old(reader)@.subrange(
            17,
            old(reader)@.len() as int,
        ),
        r is Ok ==> (command_spec(old(reader)@.subrange(17, old(reader)@.len() as int)) matches Ok((_, n))
            && final(reader)@ == old(reader)@.subrange(17 + n as int, old(reader)@.len() as int)),
{
    BtrfsHeader::parse(reader)?;
    let ghost after_header = reader@;
    let r = BtrfsCommand::parse(reader);
    proof {
        if let Ok((_, n)) = command_spec(after_header) {
            assert(after_header.subrange(n as int, after_header.len() as int) =~= old(reader)@.subrange(
                17 + n as int,
                old(reader)@.len() as int,
            ));
        }
    }
    r
}

} // verus!
