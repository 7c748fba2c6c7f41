//! Entry framing: the on-disk layout of one logical record.
//!
//! A frame is `checksum(4) | timestamp(8) | key_length(4) | value_length(4) |
//! key | operation_tag(1) | value`, every integer big-endian. The checksum is
//! CRC-32C (Castagnoli, reflected, initial value and final xor all ones)
//! computed over everything that follows it.
use vstd::prelude::*;

use crate::errors::{DBError, DBResult};

verus! {

/// Size of the fixed-width header that precedes the key.
pub const HEADER_SIZE: usize = 20;

/// Reflected CRC-32C polynomial.
pub const CRC32C_POLY: u32 = 0x82F6_3B78;

// ---------------------------------------------------------------------------
// Big-endian integers

pub open spec fn be_u32(x: u32) -> Seq<u8> {
    seq![(x >> 24u32) as u8, (x >> 16u32) as u8, (x >> 8u32) as u8, x as u8]
}

pub open spec fn be_u64(x: u64) -> Seq<u8> {
    seq![
        (x >> 56u64) as u8,
        (x >> 48u64) as u8,
        (x >> 40u64) as u8,
        (x >> 32u64) as u8,
        (x >> 24u64) as u8,
        (x >> 16u64) as u8,
        (x >> 8u64) as u8,
        x as u8,
    ]
}

pub open spec fn u32_of(b0: u8, b1: u8, b2: u8, b3: u8) -> u32 {
    ((b0 as u32) << 24u32) | ((b1 as u32) << 16u32) | ((b2 as u32) << 8u32) | (b3 as u32)
}

/// The big-endian `u32` stored at `s[at..at + 4]`.
pub open spec fn u32_at(s: Seq<u8>, at: int) -> u32 {
    u32_of(s[at], s[at + 1], s[at + 2], s[at + 3])
}

/// The big-endian `u64` stored at `s[at..at + 8]`.
pub open spec fn u64_at(s: Seq<u8>, at: int) -> u64 {
    ((u32_at(s, at) as u64) << 32u64) | (u32_at(s, at + 4) as u64)
}

proof fn lemma_u32_round_trip(x: u32)
    ensures
        u32_of((x >> 24u32) as u8, (x >> 16u32) as u8, (x >> 8u32) as u8, x as u8) == x,
{
    assert(((((x >> 24u32) as u8) as u32) << 24u32) | ((((x >> 16u32) as u8) as u32) << 16u32)
        | ((((x >> 8u32) as u8) as u32) << 8u32) | (((x as u8) as u32)) == x) by (bit_vector);
}

pub(crate) proof fn lemma_u32_at_be(s: Seq<u8>, at: int, x: u32)
    requires
        0 <= at,
        at + 4 <= s.len(),
        s.subrange(at, at + 4) == be_u32(x),
    ensures
        u32_at(s, at) == x,
{
    assert(s[at] == s.subrange(at, at + 4)[0]);
    assert(s[at + 1] == s.subrange(at, at + 4)[1]);
    assert(s[at + 2] == s.subrange(at, at + 4)[2]);
    assert(s[at + 3] == s.subrange(at, at + 4)[3]);
    lemma_u32_round_trip(x);
}

pub(crate) proof fn lemma_u64_at_be(s: Seq<u8>, at: int, x: u64)
    requires
        0 <= at,
        at + 8 <= s.len(),
        s.subrange(at, at + 8) == be_u64(x),
    ensures
        u64_at(s, at) == x,
{
    let hi = (x >> 32u64) as u32;
    let lo = x as u32;
    assert((hi >> 24u32) as u8 == (x >> 56u64) as u8) by (bit_vector)
        requires hi == (x >> 32u64) as u32;
    assert((hi >> 16u32) as u8 == (x >> 48u64) as u8) by (bit_vector)
        requires hi == (x >> 32u64) as u32;
    assert((hi >> 8u32) as u8 == (x >> 40u64) as u8) by (bit_vector)
        requires hi == (x >> 32u64) as u32;
    assert(hi as u8 == (x >> 32u64) as u8) by (bit_vector)
        requires hi == (x >> 32u64) as u32;
    assert((lo >> 24u32) as u8 == (x >> 24u64) as u8) by (bit_vector)
        requires lo == x as u32;
    assert((lo >> 16u32) as u8 == (x >> 16u64) as u8) by (bit_vector)
        requires lo == x as u32;
    assert((lo >> 8u32) as u8 == (x >> 8u64) as u8) by (bit_vector)
        requires lo == x as u32;
    assert(lo as u8 == x as u8) by (bit_vector)
        requires lo == x as u32;
    assert(s.subrange(at, at + 4) =~= be_u32(hi)) by {
        assert forall|i: int| 0 <= i < 4 implies s.subrange(at, at + 4)[i] == be_u32(hi)[i] by {
            assert(s.subrange(at, at + 4)[i] == s.subrange(at, at + 8)[i]);
        }
    }
    assert(s.subrange(at + 4, at + 8) =~= be_u32(lo)) by {
        assert forall|i: int| 0 <= i < 4 implies s.subrange(at + 4, at + 8)[i] == be_u32(lo)[i] by {
            assert(s.subrange(at + 4, at + 8)[i] == s.subrange(at, at + 8)[i + 4]);
        }
    }
    lemma_u32_at_be(s, at, hi);
    lemma_u32_at_be(s, at + 4, lo);
    assert(((hi as u64) << 32u64) | (lo as u64) == x) by (bit_vector)
        requires hi == (x >> 32u64) as u32, lo == x as u32;
}

pub(crate) fn push_be_u32(out: &mut Vec<u8>, x: u32)
    ensures
        final(out)@ == old(out)@ + be_u32(x),
{
    out.push((x >> 24u32) as u8);
    out.push((x >> 16u32) as u8);
    out.push((x >> 8u32) as u8);
    out.push(x as u8);
    assert(final(out)@ =~= old(out)@ + be_u32(x));
}

pub(crate) fn push_be_u64(out: &mut Vec<u8>, x: u64)
    ensures
        final(out)@ == old(out)@ + be_u64(x),
{
    out.push((x >> 56u64) as u8);
    out.push((x >> 48u64) as u8);
    out.push((x >> 40u64) as u8);
    out.push((x >> 32u64) as u8);
    out.push((x >> 24u64) as u8);
    out.push((x >> 16u64) as u8);
    out.push((x >> 8u64) as u8);
    out.push(x as u8);
    assert(final(out)@ =~= old(out)@ + be_u64(x));
}

pub(crate) fn read_u32(s: &[u8], at: usize) -> (r: u32)
    requires
        at + 4 <= s@.len(),
    ensures
        r == u32_at(s@, at as int),
{
    ((s[at] as u32) << 24u32) | ((s[at + 1] as u32) << 16u32) | ((s[at + 2] as u32) << 8u32) | (
    s[at + 3] as u32)
}

pub(crate) fn read_u64(s: &[u8], at: usize) -> (r: u64)
    requires
        at + 8 <= s@.len(),
    ensures
        r == u64_at(s@, at as int),
{
    let n = s.len();
    assert(at + 4 < n);
    ((read_u32(s, at) as u64) << 32u64) | (read_u32(s, at + 4) as u64)
}

/// Appends every byte of `src` to `out`.
pub fn append_bytes(out: &mut Vec<u8>, src: &[u8])
    ensures
        final(out)@ == old(out)@ + src@,
{
    let ghost start = out@;
    let mut i: usize = 0;
    while i < src.len()
        invariant
            i <= src@.len(),
            out@ == start + src@.subrange(0, i as int),
        decreases src@.len() - i,
    {
        out.push(src[i]);
        i = i + 1;
        assert(out@ =~= start + src@.subrange(0, i as int));
    }
    assert(src@.subrange(0, i as int) =~= src@);
}

/// Copies `s[from..to]` into a new vector.
pub fn copy_range(s: &[u8], from: usize, to: usize) -> (r: Vec<u8>)
    requires
        from <= to <= s@.len(),
    ensures
        r@ == s@.subrange(from as int, to as int),
{
    let mut r: Vec<u8> = Vec::new();
    let mut i: usize = from;
    while i < to
        invariant
            from <= i <= to,
            to <= s@.len(),
            r@ == s@.subrange(from as int, i as int),
        decreases to - i,
    {
        r.push(s[i]);
        i = i + 1;
        assert(r@ =~= s@.subrange(from as int, i as int));
    }
    r
}

// ---------------------------------------------------------------------------
// CRC-32C

/// `k` rounds of the bitwise reflected CRC shift register.
pub open spec fn crc_rounds(c: u32, k: nat) -> u32
    decreases k,
{
    if k == 0 {
        c
    } else {
        let p = crc_rounds(c, (k - 1) as nat);
        if p & 1u32 == 1u32 {
            (p >> 1u32) ^ CRC32C_POLY
        } else {
            p >> 1u32
        }
    }
}

/// The register after feeding one more byte.
pub open spec fn crc_update(c: u32, b: u8) -> u32 {
    crc_rounds(c ^ (b as u32), 8)
}

/// The register after feeding every byte of `s`, in order.
pub open spec fn crc_fold(c: u32, s: Seq<u8>) -> u32
    decreases s.len(),
{
    if s.len() == 0 {
        c
    } else {
        crc_update(crc_fold(c, s.drop_last()), s.last())
    }
}

/// The CRC-32C checksum of `s`.
pub open spec fn crc32c(s: Seq<u8>) -> u32 {
    crc_fold(0xFFFF_FFFFu32, s) ^ 0xFFFF_FFFFu32
}

/// Computes the CRC-32C checksum of `data`.
pub fn checksum(data: &[u8]) -> (r: u32)
    ensures
        r == crc32c(data@),
{
    let mut c: u32 = 0xFFFF_FFFF;
    let mut i: usize = 0;
    while i < data.len()
        invariant
            i <= data@.len(),
            c == crc_fold(0xFFFF_FFFFu32, data@.subrange(0, i as int)),
        decreases data@.len() - i,
    {
        let c0 = c ^ (data[i] as u32);
        c = c0;
        let mut k: u32 = 0;
        while k < 8
            invariant
                k <= 8,
                c == crc_rounds(c0, k as nat),
            decreases 8 - k,
        {
            if c & 1u32 == 1u32 {
                c = (c >> 1u32) ^ CRC32C_POLY;
            } else {
                c = c >> 1u32;
            }
            k = k + 1;
        }
        proof {
            let next = data@.subrange(0, i + 1);
            assert(next.drop_last() =~= data@.subrange(0, i as int));
            assert(next.last() == data@[i as int]);
        }
        i = i + 1;
    }
    assert(data@.subrange(0, i as int) =~= data@);
    c ^ 0xFFFF_FFFFu32
}

// ---------------------------------------------------------------------------
// Entries

/// The kind of a logical write.
#[derive(Debug, Clone, Copy, PartialEq, Eq, Structural)]
pub enum OpType {
    Put,
    Del,
}

/// The byte that stands for an operation kind in a frame.
pub open spec fn op_tag(op: OpType) -> u8 {
    match op {
        OpType::Put => 0u8,
        OpType::Del => 1u8,
    }
}

impl OpType {
    /// The byte that stands for this operation kind in a frame.
    pub fn tag(&self) -> (r: u8)
        ensures
            r == op_tag(*self),
    {
        match self {
            OpType::Put => 0,
            OpType::Del => 1,
        }
    }

    /// The operation kind that a frame's tag byte names, if any.
    pub fn from_tag(b: u8) -> (r: Option<OpType>)
        ensures
            r == (if b == 0 {
                Some(OpType::Put)
            } else if b == 1 {
                Some(OpType::Del)
            } else {
                None
            }),
    {
        if b == 0 {
            Some(OpType::Put)
        } else if b == 1 {
            Some(OpType::Del)
        } else {
            None
        }
    }
}

/// The mathematical value of an entry.
pub ghost struct EntryView {
    pub op_type: OpType,
    pub key: Seq<u8>,
    pub value: Option<Seq<u8>>,
    pub ts: Option<u64>,
}

/// A logical record: an operation on a key, with the value of a put.
#[derive(Debug, PartialEq, Eq)]
pub struct OwnedEntry {
    pub op_type: OpType,
    pub key: Vec<u8>,
    pub value: Option<Vec<u8>>,
    pub ts: Option<u64>,
}

/// A logical record whose key and value are borrowed.
#[derive(Debug, Clone, Copy)]
pub struct RefEntry<'a> {
    pub op_type: OpType,
    pub key: &'a [u8],
    pub value: Option<&'a [u8]>,
    pub ts: Option<u64>,
}

impl<'a> View for RefEntry<'a> {
    type V = EntryView;

    open spec fn view(&self) -> EntryView {
        EntryView {
            op_type: self.op_type,
            key: self.key@,
            value: match self.value {
                Some(v) => Some(v@),
                None => None,
            },
            ts: self.ts,
        }
    }
}

pub open spec fn opt_bytes_view(v: Option<Vec<u8>>) -> Option<Seq<u8>> {
    match v {
        Some(b) => Some(b@),
        None => None,
    }
}

impl View for OwnedEntry {
    type V = EntryView;

    open spec fn view(&self) -> EntryView {
        EntryView {
            op_type: self.op_type,
            key: self.key@,
            value: opt_bytes_view(self.value),
            ts: self.ts,
        }
    }
}

impl EntryView {
    /// A put carries a value and a delete carries none.
    pub open spec fn kind_matches_value(self) -> bool {
        match self.op_type {
            OpType::Put => self.value.is_some(),
            OpType::Del => self.value.is_none(),
        }
    }

    /// The value bytes stored in the frame: none for a delete.
    pub open spec fn value_bytes(self) -> Seq<u8> {
        match self.value {
            Some(v) => v,
            None => Seq::empty(),
        }
    }

    /// The entry can be framed: the kind matches the value and both lengths
    /// fit the frame's 32-bit length fields.
    pub open spec fn encodable(self) -> bool {
        &&& self.kind_matches_value()
        &&& self.key.len() <= u32::MAX
        &&& self.value_bytes().len() <= u32::MAX
    }

    /// Everything of the frame that the checksum covers.
    pub open spec fn frame_body(self) -> Seq<u8> {
        be_u64(
            match self.ts {
                Some(t) => t,
                None => 0,
            },
        ) + be_u32(self.key.len() as u32) + be_u32(self.value_bytes().len() as u32) + self.key
            + seq![op_tag(self.op_type)] + self.value_bytes()
    }

    /// The whole frame of the entry.
    pub open spec fn frame(self) -> Seq<u8> {
        be_u32(crc32c(self.frame_body())) + self.frame_body()
    }
}

/// The key length stored in a frame's header.
pub open spec fn frame_key_len(s: Seq<u8>) -> u32 {
    u32_at(s, 12)
}

/// The value length stored in a frame's header.
pub open spec fn frame_value_len(s: Seq<u8>) -> u32 {
    u32_at(s, 16)
}

/// The stored checksum of a frame agrees with its contents.
pub open spec fn checksum_matches(s: Seq<u8>) -> bool {
    u32_at(s, 0) == crc32c(s.subrange(4, s.len() as int))
}

/// What decoding `s` gives: checks run in the order header size, checksum
/// (only when `verify`), total length, operation tag, empty delete payload.
pub open spec fn decode_spec(s: Seq<u8>, verify: bool) -> Result<EntryView, DBError> {
    if s.len() < HEADER_SIZE {
        Err(DBError::CorruptRecord)
    } else if verify && !checksum_matches(s) {
        Err(DBError::ChecksumMismatch)
    } else {
        let k = frame_key_len(s) as int;
        let v = frame_value_len(s) as int;
        if s.len() != HEADER_SIZE + k + 1 + v {
            Err(DBError::CorruptRecord)
        } else {
            let tag = s[HEADER_SIZE + k];
            let key = s.subrange(HEADER_SIZE as int, HEADER_SIZE + k);
            let ts = Some(u64_at(s, 4));
            if tag == 0 {
                Ok(
                    EntryView {
                        op_type: OpType::Put,
                        key,
                        value: Some(s.subrange(HEADER_SIZE + k + 1, s.len() as int)),
                        ts,
                    },
                )
            } else if tag == 1 && v == 0 {
                Ok(EntryView { op_type: OpType::Del, key, value: None, ts })
            } else {
                Err(DBError::CorruptRecord)
            }
        }
    }
}


/// Round trip: decoding the frame of an encodable entry that carries a
/// timestamp gives that entry back, whether or not the checksum is verified.
pub proof fn lemma_round_trip(e: EntryView, verify: bool)
    requires
        e.encodable(),
        e.ts.is_some(),
    ensures
        decode_spec(e.frame(), verify) == Ok::<EntryView, DBError>(e),
{
    let body = e.frame_body();
    let f = e.frame();
    let k = e.key.len();
    let v = e.value_bytes().len();
    let ts = e.ts.unwrap();
    assert(f.len() == HEADER_SIZE + k + 1 + v);
    assert(f.subrange(0, 4) =~= be_u32(crc32c(body)));
    lemma_u32_at_be(f, 0, crc32c(body));
    assert(f.subrange(4, f.len() as int) =~= body);
    assert(f.subrange(4, 12) =~= be_u64(ts));
    lemma_u64_at_be(f, 4, ts);
    assert(f.subrange(12, 16) =~= be_u32(k as u32));
    lemma_u32_at_be(f, 12, k as u32);
    assert(f.subrange(16, 20) =~= be_u32(v as u32));
    lemma_u32_at_be(f, 16, v as u32);
    assert(f[HEADER_SIZE + k] == op_tag(e.op_type));
    assert(f.subrange(HEADER_SIZE as int, HEADER_SIZE + k) =~= e.key);
    assert(f.subrange(HEADER_SIZE + k + 1, f.len() as int) =~= e.value_bytes());
}

/// A frame that decodes with its checksum verified also decodes, to the
/// same entry, without the check.
pub proof fn lemma_decode_unverified(s: Seq<u8>)
    requires
        decode_spec(s, true) is Ok,
    ensures
        decode_spec(s, false) == decode_spec(s, true),
{
}

proof fn lemma_crc_round_injective(c1: u32, c2: u32)
    requires
        c1 != c2,
    ensures
        (if c1 & 1u32 == 1u32 {
            (c1 >> 1u32) ^ CRC32C_POLY
        } else {
            c1 >> 1u32
        }) != (if c2 & 1u32 == 1u32 {
            (c2 >> 1u32) ^ CRC32C_POLY
        } else {
            c2 >> 1u32
        }),
{
    assert((if c1 & 1u32 == 1u32 {
        (c1 >> 1u32) ^ 0x82F6_3B78u32
    } else {
        c1 >> 1u32
    }) != (if c2 & 1u32 == 1u32 {
        (c2 >> 1u32) ^ 0x82F6_3B78u32
    } else {
        c2 >> 1u32
    })) by (bit_vector)
        requires
            c1 != c2,
    ;
}

/// The shift register never maps two states to one.
proof fn lemma_crc_rounds_injective(c1: u32, c2: u32, k: nat)
    requires
        c1 != c2,
    ensures
        crc_rounds(c1, k) != crc_rounds(c2, k),
    decreases k,
{
    if k > 0 {
        lemma_crc_rounds_injective(c1, c2, (k - 1) as nat);
        lemma_crc_round_injective(crc_rounds(c1, (k - 1) as nat), crc_rounds(c2, (k - 1) as nat));
    }
}

proof fn lemma_xor_byte_injective(c1: u32, b1: u8, c2: u32, b2: u8)
    requires
        c1 != c2 && b1 == b2 || c1 == c2 && b1 != b2,
    ensures
        c1 ^ (b1 as u32) != c2 ^ (b2 as u32),
{
    assert(c1 ^ (b1 as u32) != c2 ^ (b2 as u32)) by (bit_vector)
        requires
            c1 != c2 && b1 == b2 || c1 == c2 && b1 != b2,
    ;
}

/// Two inputs of one length that differ in exactly one byte leave the
/// register in different states.
proof fn lemma_crc_fold_one_byte(c: u32, s: Seq<u8>, j: int, b: u8)
    requires
        0 <= j < s.len(),
        b != s[j],
    ensures
        crc_fold(c, s) != crc_fold(c, s.update(j, b)),
    decreases s.len(),
{
    let t = s.update(j, b);
    let n = s.len() - 1;
    if j == n {
        assert(t.drop_last() =~= s.drop_last());
        lemma_xor_byte_injective(crc_fold(c, s.drop_last()), s.last(), crc_fold(c, s.drop_last()), b);
        lemma_crc_rounds_injective(
            crc_fold(c, s.drop_last()) ^ (s.last() as u32),
            crc_fold(c, s.drop_last()) ^ (b as u32),
            8,
        );
    } else {
        assert(t.drop_last() =~= s.drop_last().update(j, b));
        lemma_crc_fold_one_byte(c, s.drop_last(), j, b);
        lemma_xor_byte_injective(crc_fold(c, s.drop_last()), s.last(), crc_fold(c, t.drop_last()), t.last());
        lemma_crc_rounds_injective(
            crc_fold(c, s.drop_last()) ^ (s.last() as u32),
            crc_fold(c, t.drop_last()) ^ (t.last() as u32),
            8,
        );
    }
}

proof fn lemma_u32_of_injective(b0: u8, b1: u8, b2: u8, b3: u8, x: u32)
    requires
        u32_of(b0, b1, b2, b3) == x,
    ensures
        b0 == (x >> 24u32) as u8,
        b1 == (x >> 16u32) as u8,
        b2 == (x >> 8u32) as u8,
        b3 == x as u8,
{
    assert(b0 == (x >> 24u32) as u8 && b1 == (x >> 16u32) as u8 && b2 == (x >> 8u32) as u8 && b3
        == x as u8) by (bit_vector)
        requires
            ((b0 as u32) << 24u32) | ((b1 as u32) << 16u32) | ((b2 as u32) << 8u32) | (b3 as u32)
                == x,
    ;
}

/// Changing any one byte of the frame of an encodable entry, be it in the
/// stored checksum, the header, the key, the tag or the value, makes a
/// verifying decode fail with `ChecksumMismatch`.
pub proof fn lemma_flipped_byte_detected(e: EntryView, i: int, b: u8)
    requires
        e.encodable(),
        0 <= i < e.frame().len(),
        b != e.frame()[i],
    ensures
        decode_spec(e.frame().update(i, b), true) == Err::<EntryView, DBError>(
            DBError::ChecksumMismatch,
        ),
{
    let body = e.frame_body();
    let f = e.frame();
    let g = f.update(i, b);
    if i < 4 {
        assert(g.subrange(4, g.len() as int) =~= body);
        if u32_at(g, 0) == crc32c(body) {
            lemma_u32_of_injective(g[0], g[1], g[2], g[3], crc32c(body));
            assert(g[i] == be_u32(crc32c(body))[i]);
            assert(f[i] == be_u32(crc32c(body))[i]);
        }
    } else {
        let body2 = body.update(i - 4, b);
        assert(g.subrange(4, g.len() as int) =~= body2);
        assert(g.subrange(0, 4) =~= be_u32(crc32c(body)));
        lemma_u32_at_be(g, 0, crc32c(body));
        assert(body[i - 4] == f[i]);
        lemma_crc_fold_one_byte(0xFFFF_FFFFu32, body, i - 4, b);
        let x = crc_fold(0xFFFF_FFFFu32, body);
        let y = crc_fold(0xFFFF_FFFFu32, body2);
        assert(x ^ 0xFFFF_FFFFu32 != y ^ 0xFFFF_FFFFu32) by (bit_vector)
            requires
                x != y,
        ;
    }
}

impl OwnedEntry {
    /// The entry with its key and value borrowed.
    pub fn as_ref_entry(&self) -> (r: RefEntry<'_>)
        ensures
            r@ == self@,
    {
        RefEntry {
            op_type: self.op_type,
            key: self.key.as_slice(),
            value: match &self.value {
                Some(v) => Some(v.as_slice()),
                None => None,
            },
            ts: self.ts,
        }
    }

    /// Frames the entry.
    pub fn encode_to_bytes(&self) -> (r: Vec<u8>)
        requires
            self@.encodable(),
        ensures
            r@ == self@.frame(),
    {
        self.as_ref_entry().encode_to_bytes()
    }

    /// Decodes one frame; see `decode_spec` for the checks and their order.
    pub fn decode_from_bytes(bytes: &[u8], verify_checksum: bool) -> (r: DBResult<OwnedEntry>)
        ensures
            match r {
                Ok(e) => decode_spec(bytes@, verify_checksum) == Ok::<EntryView, DBError>(e@),
                Err(err) => decode_spec(bytes@, verify_checksum) == Err::<EntryView, DBError>(
                    err,
                ),
            },
    {
        if bytes.len() < HEADER_SIZE {
            return Err(DBError::CorruptRecord);
        }
        if verify_checksum {
            let stored = read_u32(bytes, 0);
            let body = copy_range(bytes, 4, bytes.len());
            if stored != checksum(body.as_slice()) {
                return Err(DBError::ChecksumMismatch);
            }
        }
        let ts = read_u64(bytes, 4);
        let k = read_u32(bytes, 12) as usize;
        let v = read_u32(bytes, 16) as usize;
        if bytes.len() - HEADER_SIZE <= k || bytes.len() - HEADER_SIZE - k - 1 != v {
            return Err(DBError::CorruptRecord);
        }
        let key = copy_range(bytes, HEADER_SIZE, HEADER_SIZE + k);
        let tag = bytes[HEADER_SIZE + k];
        match OpType::from_tag(tag) {
            Some(OpType::Put) => {
                let value = copy_range(bytes, HEADER_SIZE + k + 1, bytes.len());
                Ok(OwnedEntry { op_type: OpType::Put, key, value: Some(value), ts: Some(ts) })
            },
            Some(OpType::Del) => {
                if v != 0 {
                    return Err(DBError::CorruptRecord);
                }
                Ok(OwnedEntry { op_type: OpType::Del, key, value: None, ts: Some(ts) })
            },
            None => Err(DBError::CorruptRecord),
        }
    }
}

impl<'a> RefEntry<'a> {
    /// Frames the entry.
    pub fn encode_to_bytes(&self) -> (r: Vec<u8>)
        requires
            self@.encodable(),
        ensures
            r@ == self@.frame(),
    {
        let mut body: Vec<u8> = Vec::new();
        let ts = match self.ts {
            Some(t) => t,
            None => 0,
        };
        push_be_u64(&mut body, ts);
        push_be_u32(&mut body, self.key.len() as u32);
        let vlen: usize = match self.value {
            Some(v) => v.len(),
            None => 0,
        };
        push_be_u32(&mut body, vlen as u32);
        append_bytes(&mut body, self.key);
        body.push(self.op_type.tag());
        match self.value {
            Some(v) => append_bytes(&mut body, v),
            None => {},
        }
        assert(body@ =~= self@.frame_body());
        let crc = checksum(body.as_slice());
        let mut out: Vec<u8> = Vec::new();
        push_be_u32(&mut out, crc);
        append_bytes(&mut out, body.as_slice());
        assert(out@ =~= self@.frame());
        out
    }
}

} // verus!
