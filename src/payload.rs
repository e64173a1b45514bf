//! Typed payloads: the attributes (type, length, value) of SUBVOL and
//! SNAPSHOT commands, read and written in their fixed order.
use vstd::prelude::*;
use crate::bytes::{
    be128_of, le16_at, le16_bytes, le64_at, le64_bytes, uuid_bytes, read_le16, read_le64, read_uuid,
    push_le16, push_le64, push_uuid, push_all, lemma_le16_round_trip, lemma_le64_round_trip,
    ByteReader,
};
use crate::btrfs::{
    BtrfsCommand, BtrfsCommandType, BtrfsParseError, CommandModel, ProtocolReason, eof_error,
    protocol_error, with_crc,
};

verus! {

/// Attribute type of a subvolume or snapshot UUID.
pub const TLV_UUID: u16 = 1;

/// Attribute type of a transaction id.
pub const TLV_CTRANSID: u16 = 2;

/// Attribute type of a path or name.
pub const TLV_PATH: u16 = 15;

/// Attribute type of the UUID a snapshot was cloned from.
pub const TLV_CLONE_UUID: u16 = 20;

/// Attribute type of the transaction id of the clone source.
pub const TLV_CLONE_CTRANSID: u16 = 21;

/// The first attribute of `s`: its type, its value and the bytes it takes.
pub open spec fn tlv_spec(s: Seq<u8>) -> Option<(u16, Seq<u8>, nat)> {
    if s.len() < 4 {
        None
    } else if s.len() < 4 + le16_at(s, 2) {
        None
    } else {
        Some((le16_at(s, 0), s.subrange(4, 4 + le16_at(s, 2)), (4 + le16_at(s, 2)) as nat))
    }
}

/// The first attribute of `s`, which must be of type `tag` and, where `size`
/// is not negative, hold exactly `size` bytes: its value and the bytes it takes.
pub open spec fn field_spec(s: Seq<u8>, tag: u16, size: int) -> Result<(Seq<u8>, nat), BtrfsParseError> {
    match tlv_spec(s) {
        None => Err(eof_error()),
        Some((t, v, n)) => if t != tag {
            Err(protocol_error(ProtocolReason::UnexpectedTag(t)))
        } else if size >= 0 && v.len() != size {
            Err(protocol_error(ProtocolReason::BadLength { tag, len: v.len() as u16 }))
        } else {
            Ok((v, n))
        },
    }
}

/// The bytes of one attribute.
pub open spec fn tlv_bytes(tag: u16, v: Seq<u8>) -> Seq<u8> {
    le16_bytes(tag) + le16_bytes(v.len() as u16) + v
}

pub struct SubvolModel {
    pub name: Seq<u8>,
    pub uuid: u128,
    pub ctransid: u64,
}

pub struct SnapshotModel {
    pub name: Seq<u8>,
    pub uuid: u128,
    pub ctransid: u64,
    pub clone_uuid: u128,
    pub clone_ctransid: u64,
}

/// What reading a SUBVOL payload from `s` gives: name, UUID and transaction
/// id in that order, and the bytes they take.
pub open spec fn subvol_spec(s: Seq<u8>) -> Result<(SubvolModel, nat), BtrfsParseError> {
    match field_spec(s, 15, -1) {
        Err(e) => Err(e),
        Ok((name, n1)) => match field_spec(s.subrange(n1 as int, s.len() as int), 1, 16) {
            Err(e) => Err(e),
            Ok((u, n2)) => match field_spec(s.subrange((n1 + n2) as int, s.len() as int), 2, 8) {
                Err(e) => Err(e),
                Ok((t, n3)) => Ok(
                    (
                        SubvolModel { name, uuid: be128_of(u), ctransid: le64_at(t, 0) },
                        n1 + n2 + n3,
                    ),
                ),
            },
        },
    }
}

/// What reading a SNAPSHOT payload from `s` gives: name, UUID and
/// transaction id as in a SUBVOL payload, then clone UUID and clone
/// transaction id, and the bytes they take.
pub open spec fn snapshot_spec(s: Seq<u8>) -> Result<(SnapshotModel, nat), BtrfsParseError> {
    match subvol_spec(s) {
        Err(e) => Err(e),
        Ok((head, n)) => match field_spec(s.subrange(n as int, s.len() as int), 20, 16) {
            Err(e) => Err(e),
            Ok((cu, n4)) => match field_spec(s.subrange((n + n4) as int, s.len() as int), 21, 8) {
                Err(e) => Err(e),
                Ok((ct, n5)) => Ok(
                    (
                        SnapshotModel {
                            name: head.name,
                            uuid: head.uuid,
                            ctransid: head.ctransid,
                            clone_uuid: be128_of(cu),
                            clone_ctransid: le64_at(ct, 0),
                        },
                        n + n4 + n5,
                    ),
                ),
            },
        },
    }
}

/// The SUBVOL payload: its attributes in canonical order.
pub open spec fn subvol_payload(v: SubvolModel) -> Seq<u8> {
    tlv_bytes(15, v.name) + tlv_bytes(1, uuid_bytes(v.uuid)) + tlv_bytes(2, le64_bytes(v.ctransid))
}

/// The SNAPSHOT payload: its attributes in canonical order.
pub open spec fn snapshot_payload(v: SnapshotModel) -> Seq<u8> {
    tlv_bytes(15, v.name) + tlv_bytes(1, uuid_bytes(v.uuid)) + tlv_bytes(2, le64_bytes(v.ctransid))
        + tlv_bytes(20, uuid_bytes(v.clone_uuid)) + tlv_bytes(21, le64_bytes(v.clone_ctransid))
}

/// The command that carries a payload of `kind`, with its CRC.
pub open spec fn command_for(kind: BtrfsCommandType, data: Seq<u8>) -> CommandModel {
    with_crc(CommandModel { len: data.len() as u32, kind, crc32: 0, data })
}

/// Reads the attribute at `s[at..]`, which must be of type `tag` and, where
/// `fixed`, hold `size` bytes. Gives where its value starts and how long it is.
fn read_field(s: &[u8], at: usize, tag: u16, fixed: bool, size: u16) -> (r: Result<
    (usize, usize),
    BtrfsParseError,
>)
    requires
        at <= s@.len(),
    ensures
        match field_spec(s@.subrange(at as int, s@.len() as int), tag, if fixed { size as int } else { -1 }) {
            Ok((v, n)) => r == Ok::<(usize, usize), BtrfsParseError>(((at + 4) as usize, v.len() as usize))
                && n == 4 + v.len() && at + n <= s@.len() && v == s@.subrange(
                at + 4,
                at + 4 + v.len(),
            ),
            Err(e) => r == Err::<(usize, usize), BtrfsParseError>(e),
        },
{
    let ghost rest = s@.subrange(at as int, s@.len() as int);
    if s.len() - at < 4 {
        return Err(BtrfsParseError::ReadError(crate::btrfs::ReadErrorKind::EndOfFile));
    }
    let t = read_le16(s, at);
    let n = read_le16(s, at + 2);
    assert(le16_at(rest, 0) == t && le16_at(rest, 2) == n);
    if s.len() - at - 4 < n as usize {
        return Err(BtrfsParseError::ReadError(crate::btrfs::ReadErrorKind::EndOfFile));
    }
    assert(rest.subrange(4, 4 + n) =~= s@.subrange(at + 4, at + 4 + n));
    if t != tag {
        return Err(BtrfsParseError::ProtocolError(ProtocolReason::UnexpectedTag(t)));
    }
    if fixed && n != size {
        return Err(BtrfsParseError::ProtocolError(ProtocolReason::BadLength { tag, len: n }));
    }
    Ok((at + 4, n as usize))
}

/// Appends one attribute: its type, its length, its value.
pub fn tlv_push(out: &mut Vec<u8>, tag: u16, v: &[u8])
    requires
        v@.len() <= u16::MAX,
    ensures
        final(out)@ == old(out)@ + tlv_bytes(tag, v@),
{
    push_le16(out, tag);
    push_le16(out, v.len() as u16);
    push_all(out, v);
    assert(final(out)@ =~= old(out)@ + tlv_bytes(tag, v@));
}

pub struct BtrfsSubvol {
    pub name: Vec<u8>,
    pub uuid: u128,
    pub ctransid: u64,
}

impl View for BtrfsSubvol {
    type V = SubvolModel;

    open spec fn view(&self) -> SubvolModel {
        SubvolModel { name: self.name@, uuid: self.uuid, ctransid: self.ctransid }
    }
}

impl BtrfsSubvol {
    fn parse_at(s: &[u8]) -> (r: Result<(BtrfsSubvol, usize), BtrfsParseError>)
        ensures
            match r {
                Ok((v, n)) => subvol_spec(s@) == Ok::<(SubvolModel, nat), BtrfsParseError>((v@, n as nat)),
                Err(e) => subvol_spec(s@) == Err::<(SubvolModel, nat), BtrfsParseError>(e),
            },
    {
        let (val1, l1) = read_field(s, 0, TLV_PATH, false, 0)?;
        let a2 = val1 + l1;
        assert(s@.subrange(0, s@.len() as int) =~= s@);
        let (val2, l2) = read_field(s, a2, TLV_UUID, true, 16)?;
        let a3 = val2 + l2;
        let (val3, l3) = read_field(s, a3, TLV_CTRANSID, true, 8)?;
        let name = vstd::slice::slice_to_vec(vstd::slice::slice_subrange(s, val1, a2));
        let uuid = read_uuid(s, val2);
        let ctransid = read_le64(s, val3);
        proof {
            assert(s@.subrange(val2 as int, val2 + 16) =~= s@.subrange(a2 + 4, a2 + 4 + 16));
            let t = s@.subrange(a3 + 4, a3 + 4 + 8);
            assert(le64_at(t, 0) == le64_at(s@, val3 as int));
        }
        Ok((BtrfsSubvol { name, uuid, ctransid }, val3 + l3))
    }

    /// Reads a SUBVOL payload from the start of `data`.
    pub fn load(data: &[u8]) -> (r: Result<BtrfsSubvol, BtrfsParseError>)
        ensures
            match r {
                Ok(v) => subvol_spec(data@) matches Ok((m, _)) && m == v@,
                Err(e) => subvol_spec(data@) == Err::<(SubvolModel, nat), BtrfsParseError>(e),
            },
    {
        match BtrfsSubvol::parse_at(data) {
            Ok((v, _)) => Ok(v),
            Err(e) => Err(e),
        }
    }

    /// Reads a SUBVOL payload: name, UUID and transaction id, in that order.
    /// On success their bytes are consumed; on failure nothing is.
    pub fn parse(reader: &mut ByteReader) -> (r: Result<BtrfsSubvol, BtrfsParseError>)
        ensures
            match r {
                Ok(v) => subvol_spec(old(reader)@) matches Ok((m, n)) && m == v@
                    && final(reader)@ == old(reader)@.subrange(n as int, old(reader)@.len() as int),
                Err(e) => subvol_spec(old(reader)@) == Err::<(SubvolModel, nat), BtrfsParseError>(e)
                    && final(reader)@ == old(reader)@,
            },
    {
        match BtrfsSubvol::parse_at(reader.peek()) {
            Ok((v, n)) => {
                reader.advance(n);
                Ok(v)
            },
            Err(e) => Err(e),
        }
    }

    /// The SUBVOL command that carries this payload, attributes in canonical
    /// order.
    pub fn encap(&self) -> (r: BtrfsCommand)
        requires
            self.name@.len() <= u16::MAX,
        ensures
            r@ == command_for(BtrfsCommandType::BTRFS_SEND_C_SUBVOL, subvol_payload(self@)),
    {
        let mut data: Vec<u8> = Vec::new();
        tlv_push(&mut data, TLV_PATH, self.name.as_slice());
        let mut u: Vec<u8> = Vec::new();
        push_uuid(&mut u, self.uuid);
        tlv_push(&mut data, TLV_UUID, u.as_slice());
        let mut t: Vec<u8> = Vec::new();
        push_le64(&mut t, self.ctransid);
        tlv_push(&mut data, TLV_CTRANSID, t.as_slice());
        BtrfsCommand::from_kind(BtrfsCommandType::BTRFS_SEND_C_SUBVOL, data)
    }
}

} // verus!

verus! {

pub struct BtrfsSnapshot {
    pub name: Vec<u8>,
    pub uuid: u128,
    pub ctransid: u64,
    pub clone_uuid: u128,
    pub clone_ctransid: u64,
}

impl View for BtrfsSnapshot {
    type V = SnapshotModel;

    open spec fn view(&self) -> SnapshotModel {
        SnapshotModel {
            name: self.name@,
            uuid: self.uuid,
            ctransid: self.ctransid,
            clone_uuid: self.clone_uuid,
            clone_ctransid: self.clone_ctransid,
        }
    }
}

impl BtrfsSnapshot {
    fn parse_at(s: &[u8]) -> (r: Result<(BtrfsSnapshot, usize), BtrfsParseError>)
        ensures
            match r {
                Ok((v, n)) => snapshot_spec(s@) == Ok::<(SnapshotModel, nat), BtrfsParseError>(
                    (v@, n as nat),
                ),
                Err(e) => snapshot_spec(s@) == Err::<(SnapshotModel, nat), BtrfsParseError>(e),
            },
    {
        let (head, a4) = BtrfsSubvol::parse_at(s)?;
        proof {
            assert(a4 <= s@.len()) by {
                crate::payload::lemma_subvol_spec_len(s@);
            }
        }
        let (val4, l4) = read_field(s, a4, TLV_CLONE_UUID, true, 16)?;
        let a5 = val4 + l4;
        assert(s@.subrange(a4 as int, s@.len() as int).subrange(20, s@.len() - a4) =~= s@.subrange(a5 as int, s@.len() as int));
        let (val5, l5) = read_field(s, a5, TLV_CLONE_CTRANSID, true, 8)?;
        let clone_uuid = read_uuid(s, val4);
        let clone_ctransid = read_le64(s, val5);
        proof {
            assert(s@.subrange(val4 as int, val4 + 16) =~= s@.subrange(a4 + 4, a4 + 4 + 16));
            let ct = s@.subrange(a5 + 4, a5 + 4 + 8);
            assert(le64_at(ct, 0) == le64_at(s@, val5 as int));
        }
        Ok((
            BtrfsSnapshot {
                name: head.name,
                uuid: head.uuid,
                ctransid: head.ctransid,
                clone_uuid,
                clone_ctransid,
            },
            val5 + l5,
        ))
    }

    /// Reads a SNAPSHOT payload from the start of `data`.
    pub fn load(data: &[u8]) -> (r: Result<BtrfsSnapshot, BtrfsParseError>)
        ensures
            match r {
                Ok(v) => snapshot_spec(data@) matches Ok((m, _)) && m == v@,
                Err(e) => snapshot_spec(data@) == Err::<(SnapshotModel, nat), BtrfsParseError>(e),
            },
    {
        match BtrfsSnapshot::parse_at(data) {
            Ok((v, _)) => Ok(v),
            Err(e) => Err(e),
        }
    }

    /// Reads a SNAPSHOT payload: name, UUID, transaction id, clone UUID and
    /// clone transaction id, in that order. On success their bytes are
    /// consumed; on failure nothing is.
    pub fn parse(reader: &mut ByteReader) -> (r: Result<BtrfsSnapshot, BtrfsParseError>)
        ensures
            match r {
                Ok(v) => snapshot_spec(old(reader)@) matches Ok((m, n)) && m == v@
                    && final(reader)@ == old(reader)@.subrange(n as int, old(reader)@.len() as int),
                Err(e) => snapshot_spec(old(reader)@) == Err::<(SnapshotModel, nat), BtrfsParseError>(e)
                    && final(reader)@ == old(reader)@,
            },
    {
        match BtrfsSnapshot::parse_at(reader.peek()) {
            Ok((v, n)) => {
                reader.advance(n);
                Ok(v)
            },
            Err(e) => Err(e),
        }
    }

    /// The SNAPSHOT command that carries this payload, attributes in
    /// canonical order.
    pub fn encap(&self) -> (r: BtrfsCommand)
        requires
            self.name@.len() <= u16::MAX,
        ensures
            r@ == command_for(BtrfsCommandType::BTRFS_SEND_C_SNAPSHOT, snapshot_payload(self@)),
    {
        let mut data: Vec<u8> = Vec::new();
        tlv_push(&mut data, TLV_PATH, self.name.as_slice());
        let mut u: Vec<u8> = Vec::new();
        push_uuid(&mut u, self.uuid);
        tlv_push(&mut data, TLV_UUID, u.as_slice());
        let mut t: Vec<u8> = Vec::new();
        push_le64(&mut t, self.ctransid);
        tlv_push(&mut data, TLV_CTRANSID, t.as_slice());
        let mut cu: Vec<u8> = Vec::new();
        push_uuid(&mut cu, self.clone_uuid);
        tlv_push(&mut data, TLV_CLONE_UUID, cu.as_slice());
        let mut ct: Vec<u8> = Vec::new();
        push_le64(&mut ct, self.clone_ctransid);
        tlv_push(&mut data, TLV_CLONE_CTRANSID, ct.as_slice());
        BtrfsCommand::from_kind(BtrfsCommandType::BTRFS_SEND_C_SNAPSHOT, data)
    }
}

} // verus!

verus! {

proof fn lemma_tlv_read(tag: u16, v: Seq<u8>, rest: Seq<u8>)
    requires
        v.len() <= u16::MAX,
    ensures
        tlv_spec(tlv_bytes(tag, v) + rest) == Some((tag, v, (4 + v.len()) as nat)),
        (tlv_bytes(tag, v) + rest).subrange(4 + v.len() as int, (tlv_bytes(tag, v) + rest).len() as int)
            == rest,
        tlv_bytes(tag, v).len() == 4 + v.len(),
{
    let s = tlv_bytes(tag, v) + rest;
    lemma_le16_round_trip(tag);
    lemma_le16_round_trip(v.len() as u16);
    assert(le16_at(s, 0) == le16_at(le16_bytes(tag), 0));
    assert(le16_at(s, 2) == le16_at(le16_bytes(v.len() as u16), 0));
    assert(s.subrange(4, 4 + v.len() as int) =~= v);
    assert(s.subrange(4 + v.len() as int, s.len() as int) =~= rest);
}

proof fn lemma_le64_field(x: u64)
    ensures
        le64_bytes(x).len() == 8,
        le64_at(le64_bytes(x), 0) == x,
{
    lemma_le64_round_trip(x);
}

/// A SUBVOL payload takes no more bytes than there are.
pub proof fn lemma_subvol_spec_len(s: Seq<u8>)
    ensures
        subvol_spec(s) matches Ok((_, n)) ==> n <= s.len(),
{
}

/// A SUBVOL payload that `encap` wrote reads back as the same subvolume,
/// taking exactly its own bytes, whatever follows it.
#[verifier::rlimit(40)]
pub proof fn lemma_subvol_round_trip_in(v: SubvolModel, rest: Seq<u8>)
    requires
        v.name.len() <= u16::MAX,
    ensures
        subvol_spec(subvol_payload(v) + rest) == Ok::<(SubvolModel, nat), BtrfsParseError>(
            (v, subvol_payload(v).len()),
        ),
{
    let u = uuid_bytes(v.uuid);
    let t = le64_bytes(v.ctransid);
    lemma_le64_field(v.ctransid);
    crate::bytes::lemma_uuid_round_trip(v.uuid);
    let t1 = tlv_bytes(15, v.name);
    let t2 = tlv_bytes(1, u);
    let t3 = tlv_bytes(2, t);
    let s = subvol_payload(v) + rest;
    assert(s =~= t1 + (t2 + (t3 + rest)));
    lemma_tlv_read(15, v.name, t2 + (t3 + rest));
    lemma_tlv_read(1, u, t3 + rest);
    lemma_tlv_read(2, t, rest);
    let n1 = (4 + v.name.len()) as nat;
    assert(s.subrange(n1 as int, s.len() as int) == t2 + (t3 + rest));
    assert(s.subrange((n1 + 20) as int, s.len() as int) =~= t3 + rest);
}

/// A SUBVOL payload that `encap` wrote reads back as the same subvolume,
/// taking all of its bytes.
pub proof fn lemma_subvol_round_trip(v: SubvolModel)
    requires
        v.name.len() <= u16::MAX,
    ensures
        subvol_spec(subvol_payload(v)) == Ok::<(SubvolModel, nat), BtrfsParseError>(
            (v, subvol_payload(v).len()),
        ),
{
    lemma_subvol_round_trip_in(v, Seq::empty());
    assert(subvol_payload(v) + Seq::<u8>::empty() =~= subvol_payload(v));
}

/// A SNAPSHOT payload that `encap` wrote reads back as the same snapshot,
/// taking all of its bytes.
#[verifier::rlimit(40)]
pub proof fn lemma_snapshot_round_trip(v: SnapshotModel)
    requires
        v.name.len() <= u16::MAX,
    ensures
        snapshot_spec(snapshot_payload(v)) == Ok::<(SnapshotModel, nat), BtrfsParseError>(
            (v, snapshot_payload(v).len()),
        ),
{
    let head = SubvolModel { name: v.name, uuid: v.uuid, ctransid: v.ctransid };
    let cu = uuid_bytes(v.clone_uuid);
    let ct = le64_bytes(v.clone_ctransid);
    lemma_le64_field(v.clone_ctransid);
    crate::bytes::lemma_uuid_round_trip(v.clone_uuid);
    let t4 = tlv_bytes(20, cu);
    let t5 = tlv_bytes(21, ct);
    let s = snapshot_payload(v);
    assert(s =~= subvol_payload(head) + (t4 + t5));
    lemma_subvol_round_trip_in(head, t4 + t5);
    let n = subvol_payload(head).len();
    assert(s.subrange(n as int, s.len() as int) =~= t4 + t5);
    lemma_tlv_read(20, cu, t5);
    lemma_tlv_read(21, ct, Seq::empty());
    assert(t5 + Seq::<u8>::empty() =~= t5);
    assert(s.subrange((n + 20) as int, s.len() as int) =~= t5);
}

/// The attributes of a SUBVOL payload in canonical order: name, UUID,
/// transaction id.
pub open spec fn subvol_tlvs(v: SubvolModel) -> Seq<Seq<u8>> {
    seq![tlv_bytes(15, v.name), tlv_bytes(1, uuid_bytes(v.uuid)), tlv_bytes(2, le64_bytes(v.ctransid))]
}

/// The attribute types of a SUBVOL payload in canonical order.
pub open spec fn subvol_tags() -> Seq<u16> {
    seq![15u16, 1u16, 2u16]
}

/// Whether `a`, `b`, `c` are 0, 1, 2 in some order.
pub open spec fn is_order_of_three(a: int, b: int, c: int) -> bool {
    0 <= a < 3 && 0 <= b < 3 && 0 <= c < 3 && a != b && b != c && a != c
}

/// A SUBVOL payload whose attributes stand in any order but the canonical
/// one is rejected with a protocol error naming the type found at the first
/// place out of order.
pub proof fn lemma_subvol_order_sensitive(v: SubvolModel, a: int, b: int, c: int)
    requires
        v.name.len() <= u16::MAX,
        is_order_of_three(a, b, c),
        !(a == 0 && b == 1 && c == 2),
    ensures
        subvol_spec(subvol_tlvs(v)[a] + subvol_tlvs(v)[b] + subvol_tlvs(v)[c]) == Err::<
            (SubvolModel, nat),
            BtrfsParseError,
        >(protocol_error(ProtocolReason::UnexpectedTag(if a != 0 { subvol_tags()[a] } else { subvol_tags()[b] }))),
{
    let tl = subvol_tlvs(v);
    lemma_le64_field(v.ctransid);
    let vals = seq![v.name, uuid_bytes(v.uuid), le64_bytes(v.ctransid)];
    assert(forall|i: int| 0 <= i < 3 ==> #[trigger] tl[i] == tlv_bytes(subvol_tags()[i], vals[i]));
    let s = tl[a] + tl[b] + tl[c];
    assert(s =~= tl[a] + (tl[b] + tl[c]));
    lemma_tlv_read(subvol_tags()[a], vals[a], tl[b] + tl[c]);
    if a == 0 {
        lemma_tlv_read(subvol_tags()[b], vals[b], tl[c]);
        let n1 = (4 + v.name.len()) as nat;
        assert(s.subrange(n1 as int, s.len() as int) == tl[b] + tl[c]);
    }
}

} // verus!
