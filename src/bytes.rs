//! Little-endian and big-endian integer encodings, and a byte cursor.
use vstd::prelude::*;

verus! {

/// The two bytes of `v`, least significant first.
pub open spec fn le16_bytes(v: u16) -> Seq<u8> {
    seq![(v & 0xff) as u8, (v >> 8u16) as u8]
}

/// The four bytes of `v`, least significant first.
pub open spec fn le32_bytes(v: u32) -> Seq<u8> {
    seq![(v & 0xff) as u8, ((v >> 8u32) & 0xff) as u8, ((v >> 16u32) & 0xff) as u8, (v >> 24u32) as u8]
}

/// The eight bytes of `v`, least significant first.
pub open spec fn le64_bytes(v: u64) -> Seq<u8> {
    le32_bytes((v & 0xffff_ffff) as u32) + le32_bytes((v >> 32u64) as u32)
}

/// The four bytes of `v`, most significant first.
pub open spec fn be32_bytes(v: u32) -> Seq<u8> {
    seq![(v >> 24u32) as u8, ((v >> 16u32) & 0xff) as u8, ((v >> 8u32) & 0xff) as u8, (v & 0xff) as u8]
}

/// The little-endian `u16` stored at `s[i..i + 2]`.
pub open spec fn le16_at(s: Seq<u8>, i: int) -> u16 {
    (s[i] as u16) | ((s[i + 1] as u16) << 8u16)
}

/// The little-endian `u32` stored at `s[i..i + 4]`.
pub open spec fn le32_at(s: Seq<u8>, i: int) -> u32 {
    (s[i] as u32) | ((s[i + 1] as u32) << 8u32) | ((s[i + 2] as u32) << 16u32) | ((s[i + 3] as u32)
        << 24u32)
}

/// The little-endian `u64` stored at `s[i..i + 8]`.
pub open spec fn le64_at(s: Seq<u8>, i: int) -> u64 {
    (le32_at(s, i) as u64) | ((le32_at(s, i + 4) as u64) << 32u64)
}

/// The big-endian `u32` stored at `s[i..i + 4]`.
pub open spec fn be32_at(s: Seq<u8>, i: int) -> u32 {
    ((s[i] as u32) << 24u32) | ((s[i + 1] as u32) << 16u32) | ((s[i + 2] as u32) << 8u32) | (s[i
        + 3] as u32)
}

/// The big-endian `u64` stored at `s[i..i + 8]`.
pub open spec fn be64_at(s: Seq<u8>, i: int) -> u64 {
    ((be32_at(s, i) as u64) << 32u64) | (be32_at(s, i + 4) as u64)
}

/// The value of a byte string read as a big-endian number (the first 16
/// bytes of a UUID give its 128-bit value).
pub open spec fn be128_of(s: Seq<u8>) -> u128
    decreases s.len(),
{
    if s.len() == 0 {
        0
    } else {
        (be128_of(s.drop_last()) << 8u128) | (s.last() as u128)
    }
}

/// The sixteen bytes of a UUID value, most significant first.
pub open spec fn uuid_bytes(v: u128) -> Seq<u8> {
    Seq::new(16, |i: int| ((v >> ((120 - 8 * i) as u128)) & 0xff) as u8)
}

pub proof fn lemma_le16_round_trip(v: u16)
    ensures
        le16_at(le16_bytes(v), 0) == v,
{
    let b0 = (v & 0xff) as u8;
    let b1 = (v >> 8u16) as u8;
    assert((b0 as u16) | ((b1 as u16) << 8u16) == v) by (bit_vector)
        requires
            b0 == (v & 0xff) as u8,
            b1 == (v >> 8u16) as u8,
    ;
}

pub proof fn lemma_le32_round_trip(v: u32)
    ensures
        le32_at(le32_bytes(v), 0) == v,
{
    let b0 = (v & 0xff) as u8;
    let b1 = ((v >> 8u32) & 0xff) as u8;
    let b2 = ((v >> 16u32) & 0xff) as u8;
    let b3 = (v >> 24u32) as u8;
    assert((b0 as u32) | ((b1 as u32) << 8u32) | ((b2 as u32) << 16u32) | ((b3 as u32) << 24u32)
        == v) by (bit_vector)
        requires
            b0 == (v & 0xff) as u8,
            b1 == ((v >> 8u32) & 0xff) as u8,
            b2 == ((v >> 16u32) & 0xff) as u8,
            b3 == (v >> 24u32) as u8,
    ;
}

pub proof fn lemma_le64_round_trip(v: u64)
    ensures
        le64_at(le64_bytes(v), 0) == v,
{
    let lo = (v & 0xffff_ffff) as u32;
    let hi = (v >> 32u64) as u32;
    lemma_le32_round_trip(lo);
    lemma_le32_round_trip(hi);
    let s = le64_bytes(v);
    assert(le32_at(s, 0) == le32_at(le32_bytes(lo), 0));
    assert(le32_at(s, 4) == le32_at(le32_bytes(hi), 0));
    assert((lo as u64) | ((hi as u64) << 32u64) == v) by (bit_vector)
        requires
            lo == (v & 0xffff_ffff) as u32,
            hi == (v >> 32u64) as u32,
    ;
}

pub proof fn lemma_le16_bytes_of(s: Seq<u8>, i: int)
    requires
        0 <= i,
        i + 2 <= s.len(),
    ensures
        le16_bytes(le16_at(s, i)) == s.subrange(i, i + 2),
{
    let b0 = s[i];
    let b1 = s[i + 1];
    let v = le16_at(s, i);
    assert((v & 0xff) as u8 == b0 && (v >> 8u16) as u8 == b1) by (bit_vector)
        requires
            v == (b0 as u16) | ((b1 as u16) << 8u16),
    ;
    assert(le16_bytes(v) =~= s.subrange(i, i + 2));
}

pub proof fn lemma_le32_bytes_of(s: Seq<u8>, i: int)
    requires
        0 <= i,
        i + 4 <= s.len(),
    ensures
        le32_bytes(le32_at(s, i)) == s.subrange(i, i + 4),
{
    let b0 = s[i];
    let b1 = s[i + 1];
    let b2 = s[i + 2];
    let b3 = s[i + 3];
    let v = le32_at(s, i);
    assert((v & 0xff) as u8 == b0 && ((v >> 8u32) & 0xff) as u8 == b1 && ((v >> 16u32) & 0xff) as u8
        == b2 && (v >> 24u32) as u8 == b3) by (bit_vector)
        requires
            v == (b0 as u32) | ((b1 as u32) << 8u32) | ((b2 as u32) << 16u32) | ((b3 as u32)
                << 24u32),
    ;
    assert(le32_bytes(v) =~= s.subrange(i, i + 4));
}

/// Reads the little-endian `u16` at `s[i..i + 2]`.
pub fn read_le16(s: &[u8], i: usize) -> (r: u16)
    requires
        i + 2 <= s@.len(),
    ensures
        r == le16_at(s@, i as int),
{
    (s[i] as u16) | ((s[i + 1] as u16) << 8u16)
}

/// Reads the little-endian `u32` at `s[i..i + 4]`.
pub fn read_le32(s: &[u8], i: usize) -> (r: u32)
    requires
        i + 4 <= s@.len(),
    ensures
        r == le32_at(s@, i as int),
{
    (s[i] as u32) | ((s[i + 1] as u32) << 8u32) | ((s[i + 2] as u32) << 16u32) | ((s[i + 3] as u32)
        << 24u32)
}

/// Reads the little-endian `u64` at `s[i..i + 8]`.
pub fn read_le64(s: &[u8], i: usize) -> (r: u64)
    requires
        i + 8 <= s@.len(),
    ensures
        r == le64_at(s@, i as int),
{
    let n = s.len();
    assert(i + 4 <= n);
    let lo = read_le32(s, i);
    let hi = read_le32(s, i + 4);
    (lo as u64) | ((hi as u64) << 32u64)
}

/// Reads the big-endian `u32` at `s[i..i + 4]`.
pub fn read_be32(s: &[u8], i: usize) -> (r: u32)
    requires
        i + 4 <= s@.len(),
    ensures
        r == be32_at(s@, i as int),
{
    ((s[i] as u32) << 24u32) | ((s[i + 1] as u32) << 16u32) | ((s[i + 2] as u32) << 8u32) | (s[i
        + 3] as u32)
}

/// Reads the big-endian `u64` at `s[i..i + 8]`.
pub fn read_be64(s: &[u8], i: usize) -> (r: u64)
    requires
        i + 8 <= s@.len(),
    ensures
        r == be64_at(s@, i as int),
{
    let n = s.len();
    assert(i + 4 <= n);
    let hi = read_be32(s, i);
    let lo = read_be32(s, i + 4);
    ((hi as u64) << 32u64) | (lo as u64)
}

/// Reads the 128-bit value of the sixteen bytes at `s[i..i + 16]`.
pub fn read_uuid(s: &[u8], i: usize) -> (r: u128)
    requires
        i + 16 <= s@.len(),
    ensures
        r == be128_of(s@.subrange(i as int, i + 16)),
{
    let n = s.len();
    let mut v: u128 = 0;
    let mut k: usize = 0;
    while k < 16
        invariant
            k <= 16,
            i + 16 <= n,
            n == s@.len(),
            v == be128_of(s@.subrange(i as int, i + k)),
        decreases 16 - k,
    {
        let ghost prev = s@.subrange(i as int, i + k);
        let ghost next = s@.subrange(i as int, i + k + 1);
        assert(next.drop_last() =~= prev);
        v = (v << 8u128) | (s[i + k] as u128);
        k = k + 1;
    }
    v
}

/// Appends `v` to `out` as two little-endian bytes.
pub fn push_le16(out: &mut Vec<u8>, v: u16)
    ensures
        final(out)@ == old(out)@ + le16_bytes(v),
{
    out.push((v & 0xff) as u8);
    out.push((v >> 8u16) as u8);
    assert(final(out)@ =~= old(out)@ + le16_bytes(v));
}

/// Appends `v` to `out` as four little-endian bytes.
pub fn push_le32(out: &mut Vec<u8>, v: u32)
    ensures
        final(out)@ == old(out)@ + le32_bytes(v),
{
    out.push((v & 0xff) as u8);
    out.push(((v >> 8u32) & 0xff) as u8);
    out.push(((v >> 16u32) & 0xff) as u8);
    out.push((v >> 24u32) as u8);
    assert(final(out)@ =~= old(out)@ + le32_bytes(v));
}

/// Appends `v` to `out` as eight little-endian bytes.
pub fn push_le64(out: &mut Vec<u8>, v: u64)
    ensures
        final(out)@ == old(out)@ + le64_bytes(v),
{
    push_le32(out, (v & 0xffff_ffff) as u32);
    push_le32(out, (v >> 32u64) as u32);
    assert(final(out)@ =~= old(out)@ + le64_bytes(v));
}

/// Appends `v` to `out` as four big-endian bytes.
pub fn push_be32(out: &mut Vec<u8>, v: u32)
    ensures
        final(out)@ == old(out)@ + be32_bytes(v),
{
    out.push((v >> 24u32) as u8);
    out.push(((v >> 16u32) & 0xff) as u8);
    out.push(((v >> 8u32) & 0xff) as u8);
    out.push((v & 0xff) as u8);
    assert(final(out)@ =~= old(out)@ + be32_bytes(v));
}

/// Appends the sixteen bytes of the UUID value `v`, most significant first.
pub fn push_uuid(out: &mut Vec<u8>, v: u128)
    ensures
        final(out)@ == old(out)@ + uuid_bytes(v),
{
    let ghost start = out@;
    let mut k: usize = 0;
    while k < 16
        invariant
            k <= 16,
            out@ == start + uuid_bytes(v).subrange(0, k as int),
        decreases 16 - k,
    {
        let shift: u128 = (120 - 8 * k) as u128;
        out.push(((v >> shift) & 0xff) as u8);
        k = k + 1;
        assert(out@ =~= start + uuid_bytes(v).subrange(0, k as int));
    }
    assert(uuid_bytes(v).subrange(0, 16) =~= uuid_bytes(v));
}

/// Appends all of `src` to `out`.
pub fn push_all(out: &mut Vec<u8>, src: &[u8])
    ensures
        final(out)@ == old(out)@ + src@,
{
    let ghost start = out@;
    let mut k: usize = 0;
    while k < src.len()
        invariant
            k <= src@.len(),
            out@ == start + src@.subrange(0, k as int),
        decreases src@.len() - k,
    {
        out.push(src[k]);
        k = k + 1;
        assert(out@ =~= start + src@.subrange(0, k as int));
    }
    assert(src@.subrange(0, src@.len() as int) =~= src@);
}

} // verus!

verus! {

/// A cursor over the bytes that have arrived from a source so far. Its view is
/// the bytes not yet consumed; `feed` appends what arrives next.
pub struct ByteReader {
    buf: Vec<u8>,
    pos: usize,
}

impl View for ByteReader {
    type V = Seq<u8>;

    closed spec fn view(&self) -> Seq<u8> {
        self.buf@.subrange(self.pos as int, self.buf@.len() as int)
    }
}

impl ByteReader {
    #[verifier::type_invariant]
    spec fn inv(&self) -> bool {
        self.pos <= self.buf@.len()
    }

    /// A cursor over a copy of `data`.
    pub fn new(data: &[u8]) -> (r: ByteReader)
        ensures
            r@ == data@,
    {
        let buf = vstd::slice::slice_to_vec(data);
        let r = ByteReader { buf, pos: 0 };
        assert(r@ =~= data@);
        r
    }

    /// A cursor over `data`.
    pub fn from_vec(data: Vec<u8>) -> (r: ByteReader)
        ensures
            r@ == data@,
    {
        let r = ByteReader { buf: data, pos: 0 };
        assert(r@ =~= r.buf@);
        r
    }

    /// The number of bytes not yet consumed.
    pub fn len(&self) -> (r: usize)
        ensures
            r == self@.len(),
    {
        proof {
            use_type_invariant(self);
        }
        self.buf.len() - self.pos
    }

    /// The bytes not yet consumed.
    pub fn peek(&self) -> (r: &[u8])
        ensures
            r@ == self@,
    {
        proof {
            use_type_invariant(self);
        }
        vstd::slice::slice_subrange(self.buf.as_slice(), self.pos, self.buf.len())
    }

    /// Consumes the first `n` bytes.
    pub fn advance(&mut self, n: usize)
        requires
            n <= old(self)@.len(),
        ensures
            final(self)@ == old(self)@.subrange(n as int, old(self)@.len() as int),
    {
        proof {
            use_type_invariant(&*self);
        }
        let total = self.buf.len();
        assert(self.pos + n <= total);
        self.pos = self.pos + n;
        assert(self@ =~= old(self)@.subrange(n as int, old(self)@.len() as int));
    }

    /// Appends bytes that arrived from the source, dropping those already
    /// consumed from memory.
    pub fn feed(&mut self, more: &[u8])
        ensures
            final(self)@ == old(self)@ + more@,
    {
        proof {
            use_type_invariant(&*self);
        }
        let mut buf: Vec<u8> = Vec::new();
        crate::bytes::push_all(&mut buf, self.peek());
        crate::bytes::push_all(&mut buf, more);
        *self = ByteReader { buf, pos: 0 };
        assert(self@ =~= old(self)@ + more@);
    }
}

} // verus!

verus! {

proof fn lemma_be128_step(s: Seq<u8>, k: int)
    requires
        0 <= k < s.len(),
    ensures
        be128_of(s.subrange(0, k + 1)) == (be128_of(s.subrange(0, k)) << 8u128) | (s[k] as u128),
{
    assert(s.subrange(0, k + 1).drop_last() =~= s.subrange(0, k));
}

proof fn lemma_uuid_prefix(v: u128, k: int)
    requires
        1 <= k <= 16,
    ensures
        be128_of(uuid_bytes(v).subrange(0, k)) == v >> ((128 - 8 * k) as u128),
    decreases k,
{
    let s = uuid_bytes(v);
    lemma_be128_step(s, k - 1);
    let b = s[k - 1];
    let sh = (128 - 8 * k) as u128;
    assert(b == ((v >> sh) & 0xff) as u8);
    if k == 1 {
        assert(s.subrange(0, 0) =~= Seq::<u8>::empty());
        assert(((0u128 << 8u128) | (b as u128)) == v >> 120u128) by (bit_vector)
            requires
                b == ((v >> 120u128) & 0xff) as u8,
        ;
    } else {
        lemma_uuid_prefix(v, k - 1);
        let prev = be128_of(s.subrange(0, k - 1));
        let sp = (sh + 8) as u128;
        assert(((prev << 8u128) | (b as u128)) == v >> sh) by (bit_vector)
            requires
                prev == v >> sp,
                sp == sh + 8,
                sh <= 112,
                b == ((v >> sh) & 0xff) as u8,
        ;
    }
}

/// The sixteen bytes of a UUID value read back as that value.
pub proof fn lemma_uuid_round_trip(v: u128)
    ensures
        be128_of(uuid_bytes(v)) == v,
{
    lemma_uuid_prefix(v, 16);
    assert(uuid_bytes(v).subrange(0, 16) =~= uuid_bytes(v));
    assert(v >> 0u128 == v) by (bit_vector);
}

} // verus!
