//! The manifest: an append-only log of version edits, and the version set
//! that installs an edit only after its record is durable.
//!
//! A record is `payload_length(4) | checksum(4) | payload`, the checksum
//! being CRC-32C over the payload. The payload holds, in order: the new
//! mutable segment and the retired one, each as a presence byte (0 or 1)
//! followed by an 8-byte id when present; then the compaction's input ids
//! and output ids, each as a 4-byte count followed by 8-byte ids. All
//! integers are big-endian.
use vstd::prelude::*;

use crate::codec::{
    be_u32, be_u64, checksum, crc32c, lemma_u32_at_be, lemma_u64_at_be, push_be_u32, push_be_u64,
    read_u32, read_u64, u32_at, u64_at,
};
use crate::segment::FileId;
use crate::version::{
    apply_edit, genesis, lemma_replay_push, replay, EditView, VersionEdit, VersionView,
};

verus! {

// ---------------------------------------------------------------------------
// Encoding

pub open spec fn opt_id_bytes(o: Option<FileId>) -> Seq<u8> {
    match o {
        None => seq![0u8],
        Some(x) => seq![1u8] + be_u64(x),
    }
}

pub open spec fn ids_flat(v: Seq<FileId>) -> Seq<u8>
    decreases v.len(),
{
    if v.len() == 0 {
        Seq::empty()
    } else {
        ids_flat(v.drop_last()) + be_u64(v.last())
    }
}

pub open spec fn ids_bytes(v: Seq<FileId>) -> Seq<u8> {
    be_u32(v.len() as u32) + ids_flat(v)
}

pub open spec fn edit_payload(e: EditView) -> Seq<u8> {
    opt_id_bytes(e.new_mut) + opt_id_bytes(e.mut_to_imm) + ids_bytes(e.compact_input_imm)
        + ids_bytes(e.compact_output_imm)
}

/// The record of an edit as it is appended to the manifest.
pub open spec fn edit_record(e: EditView) -> Seq<u8> {
    be_u32(edit_payload(e).len() as u32) + be_u32(crc32c(edit_payload(e))) + edit_payload(e)
}

/// The edit's record fits the format's 32-bit length fields.
pub open spec fn edit_encodable(e: EditView) -> bool {
    e.compact_input_imm.len() + e.compact_output_imm.len() <= 0x1000_0000
}

/// The manifest that holds the records of `edits`, in order.
pub open spec fn log_of(edits: Seq<EditView>) -> Seq<u8>
    decreases edits.len(),
{
    if edits.len() == 0 {
        Seq::empty()
    } else {
        log_of(edits.drop_last()) + edit_record(edits.last())
    }
}

proof fn lemma_ids_flat_len(v: Seq<FileId>)
    ensures
        ids_flat(v).len() == 8 * v.len(),
    decreases v.len(),
{
    if v.len() > 0 {
        lemma_ids_flat_len(v.drop_last());
    }
}

proof fn lemma_payload_len(e: EditView)
    ensures
        edit_payload(e).len() <= 26 + 8 * (e.compact_input_imm.len() + e.compact_output_imm.len()),
{
    lemma_ids_flat_len(e.compact_input_imm);
    lemma_ids_flat_len(e.compact_output_imm);
}

fn push_opt_id(out: &mut Vec<u8>, o: Option<FileId>)
    ensures
        final(out)@ == old(out)@ + opt_id_bytes(o),
{
    match o {
        None => {
            out.push(0u8);
            assert(final(out)@ =~= old(out)@ + opt_id_bytes(o));
        },
        Some(x) => {
            out.push(1u8);
            push_be_u64(out, x);
            assert(final(out)@ =~= old(out)@ + opt_id_bytes(o));
        },
    }
}

fn push_ids(out: &mut Vec<u8>, v: &Vec<FileId>)
    requires
        v@.len() <= u32::MAX,
    ensures
        final(out)@ == old(out)@ + ids_bytes(v@),
{
    push_be_u32(out, v.len() as u32);
    let ghost start = out@;
    let mut i: usize = 0;
    while i < v.len()
        invariant
            i <= v@.len(),
            out@ == start + ids_flat(v@.subrange(0, i as int)),
        decreases v@.len() - i,
    {
        push_be_u64(out, v[i]);
        proof {
            assert(v@.subrange(0, i + 1).drop_last() =~= v@.subrange(0, i as int));
        }
        i = i + 1;
        assert(out@ =~= start + ids_flat(v@.subrange(0, i as int)));
    }
    assert(v@.subrange(0, i as int) =~= v@);
    assert(final(out)@ =~= old(out)@ + ids_bytes(v@));
}

/// Encodes the manifest record of `edit`.
pub fn encode_edit(edit: &VersionEdit) -> (r: Vec<u8>)
    requires
        edit_encodable(edit@),
    ensures
        r@ == edit_record(edit@),
{
    let mut payload: Vec<u8> = Vec::new();
    push_opt_id(&mut payload, edit.new_mut);
    push_opt_id(&mut payload, edit.mut_to_imm);
    push_ids(&mut payload, &edit.compact_input_imm);
    push_ids(&mut payload, &edit.compact_output_imm);
    assert(payload@ =~= edit_payload(edit@));
    proof {
        lemma_payload_len(edit@);
    }
    let mut out: Vec<u8> = Vec::new();
    push_be_u32(&mut out, payload.len() as u32);
    push_be_u32(&mut out, checksum(payload.as_slice()));
    crate::codec::append_bytes(&mut out, payload.as_slice());
    assert(out@ =~= edit_record(edit@));
    out
}

// ---------------------------------------------------------------------------
// Decoding

/// Parses an optional id at `at`, not reading at or past `end`.
pub open spec fn parse_opt_id(s: Seq<u8>, at: int, end: int) -> Option<(Option<FileId>, int)> {
    if at >= end {
        None
    } else if s[at] == 0 {
        Some((None, at + 1))
    } else if s[at] == 1 && at + 9 <= end {
        Some((Some(u64_at(s, at + 1)), at + 9))
    } else {
        None
    }
}

/// Parses a counted list of ids at `at`, not reading at or past `end`.
pub open spec fn parse_ids(s: Seq<u8>, at: int, end: int) -> Option<(Seq<FileId>, int)> {
    if at + 4 > end {
        None
    } else {
        let n = u32_at(s, at) as int;
        if at + 4 + 8 * n > end {
            None
        } else {
            Some((Seq::new(n as nat, |i: int| u64_at(s, at + 4 + 8 * i)), at + 4 + 8 * n))
        }
    }
}

/// Parses a payload that fills `s[at..end]` exactly.
#[verifier::opaque]
pub open spec fn parse_payload(s: Seq<u8>, at: int, end: int) -> Option<EditView> {
    match parse_opt_id(s, at, end) {
        None => None,
        Some((new_mut, at1)) => match parse_opt_id(s, at1, end) {
            None => None,
            Some((mut_to_imm, at2)) => match parse_ids(s, at2, end) {
                None => None,
                Some((inputs, at3)) => match parse_ids(s, at3, end) {
                    None => None,
                    Some((outputs, at4)) => if at4 == end {
                        Some(
                            EditView {
                                new_mut,
                                mut_to_imm,
                                compact_input_imm: inputs,
                                compact_output_imm: outputs,
                            },
                        )
                    } else {
                        None
                    },
                },
            },
        },
    }
}

/// Parses the record that starts at `at`: the edit and where the record ends.
#[verifier::opaque]
pub open spec fn parse_record(s: Seq<u8>, at: int) -> Option<(EditView, int)> {
    if at + 8 > s.len() {
        None
    } else {
        let n = u32_at(s, at) as int;
        if at + 8 + n > s.len() {
            None
        } else if u32_at(s, at + 4) != crc32c(s.subrange(at + 8, at + 8 + n)) {
            None
        } else {
            match parse_payload(s, at + 8, at + 8 + n) {
                Some(e) => Some((e, at + 8 + n)),
                None => None,
            }
        }
    }
}

/// The edits of the records that follow one another from `at` on; reading
/// stops at the first place where no whole, intact record starts, such as
/// the torn tail of an append that did not complete.
pub open spec fn parse_log(s: Seq<u8>, at: int) -> Seq<EditView>
    decreases s.len() - at,
{
    if 0 <= at {
        match parse_record(s, at) {
            Some((e, next)) => if at < next <= s.len() {
                seq![e] + parse_log(s, next)
            } else {
                Seq::empty()
            },
            None => Seq::empty(),
        }
    } else {
        Seq::empty()
    }
}

/// Where the run of intact records that starts at `at` ends.
pub open spec fn parsed_end(s: Seq<u8>, at: int) -> int
    decreases s.len() - at,
{
    if 0 <= at {
        match parse_record(s, at) {
            Some((e, next)) => if at < next <= s.len() {
                parsed_end(s, next)
            } else {
                at
            },
            None => at,
        }
    } else {
        at
    }
}

/// The version that replaying the manifest `s` builds.
pub open spec fn recovered(manifest_id: FileId, s: Seq<u8>) -> VersionView {
    replay(genesis(manifest_id), parse_log(s, 0))
}

fn decode_opt_id(s: &[u8], at: usize, end: usize) -> (r: Option<(Option<FileId>, usize)>)
    requires
        end <= s@.len(),
    ensures
        match r {
            Some((o, p)) => parse_opt_id(s@, at as int, end as int) == Some((o, p as int)),
            None => parse_opt_id(s@, at as int, end as int) is None,
        },
{
    if at >= end {
        None
    } else if s[at] == 0 {
        Some((None, at + 1))
    } else if s[at] == 1 && end - at >= 9 {
        Some((Some(read_u64(s, at + 1)), at + 9))
    } else {
        None
    }
}

fn decode_ids(s: &[u8], at: usize, end: usize) -> (r: Option<(Vec<FileId>, usize)>)
    requires
        end <= s@.len(),
    ensures
        match r {
            Some((v, p)) => parse_ids(s@, at as int, end as int) == Some((v@, p as int)),
            None => parse_ids(s@, at as int, end as int) is None,
        },
{
    if at > end || end - at < 4 {
        return None;
    }
    let n = read_u32(s, at) as usize;
    let room = end - at - 4;
    if n > room / 8 {
        return None;
    }
    let base = at + 4;
    let mut v: Vec<FileId> = Vec::new();
    let mut i: usize = 0;
    while i < n
        invariant
            i <= n,
            n <= room / 8,
            room == end - at - 4,
            base == at + 4,
            end <= s@.len(),
            v@ =~= Seq::new(i as nat, |k: int| u64_at(s@, base + 8 * k)),
        decreases n - i,
    {
        v.push(read_u64(s, base + 8 * i));
        i = i + 1;
    }
    Some((v, base + 8 * n))
}

fn decode_payload(s: &[u8], at: usize, end: usize) -> (r: Option<VersionEdit>)
    requires
        end <= s@.len(),
    ensures
        match r {
            Some(e) => parse_payload(s@, at as int, end as int) == Some(e@),
            None => parse_payload(s@, at as int, end as int) is None,
        },
{
    proof {
        reveal(parse_payload);
    }
    let (new_mut, at1) = match decode_opt_id(s, at, end) {
        Some(x) => x,
        None => return None,
    };
    let (mut_to_imm, at2) = match decode_opt_id(s, at1, end) {
        Some(x) => x,
        None => return None,
    };
    let (inputs, at3) = match decode_ids(s, at2, end) {
        Some(x) => x,
        None => return None,
    };
    let (outputs, at4) = match decode_ids(s, at3, end) {
        Some(x) => x,
        None => return None,
    };
    if at4 != end {
        return None;
    }
    Some(
        VersionEdit { new_mut, mut_to_imm, compact_input_imm: inputs, compact_output_imm: outputs },
    )
}

/// Decodes the record that starts at `at`, with where it ends.
pub fn decode_record(s: &[u8], at: usize) -> (r: Option<(VersionEdit, usize)>)
    ensures
        match r {
            Some((e, p)) => parse_record(s@, at as int) == Some((e@, p as int)),
            None => parse_record(s@, at as int) is None,
        },
{
    proof {
        reveal(parse_record);
    }
    if at > s.len() || s.len() - at < 8 {
        return None;
    }
    let n = read_u32(s, at) as usize;
    if n > s.len() - at - 8 {
        return None;
    }
    let stored = read_u32(s, at + 4);
    let payload = crate::codec::copy_range(s, at + 8, at + 8 + n);
    if stored != checksum(payload.as_slice()) {
        return None;
    }
    match decode_payload(s, at + 8, at + 8 + n) {
        Some(e) => Some((e, at + 8 + n)),
        None => None,
    }
}

// ---------------------------------------------------------------------------
// Laws of the record format

proof fn lemma_ids_at(s: Seq<u8>, base: int, v: Seq<FileId>)
    requires
        0 <= base,
        base + 8 * v.len() <= s.len(),
        s.subrange(base, base + 8 * v.len()) == ids_flat(v),
    ensures
        Seq::new(v.len(), |i: int| u64_at(s, base + 8 * i)) == v,
    decreases v.len(),
{
    if v.len() > 0 {
        let w = v.drop_last();
        lemma_ids_flat_len(w);
        let mid = base + 8 * w.len();
        assert(s.subrange(base, mid) =~= ids_flat(w)) by {
            assert(s.subrange(base, mid) =~= s.subrange(base, base + 8 * v.len()).subrange(0, 8 * w.len() as int));
        }
        lemma_ids_at(s, base, w);
        assert(s.subrange(mid, mid + 8) =~= be_u64(v.last())) by {
            assert(s.subrange(mid, mid + 8) =~= s.subrange(base, base + 8 * v.len()).subrange(8 * w.len() as int, 8 * w.len() + 8 as int));
        }
        lemma_u64_at_be(s, mid, v.last());
        let got = Seq::new(v.len(), |i: int| u64_at(s, base + 8 * i));
        assert forall|i: int| 0 <= i < v.len() implies got[i] == v[i] by {
            if i < w.len() {
                assert(Seq::new(w.len(), |k: int| u64_at(s, base + 8 * k))[i] == w[i]);
            }
        }
        assert(got =~= v);
    }
}

/// An intact record of an encodable edit at `at` parses back to that edit.
#[verifier::rlimit(50)]
pub proof fn lemma_record_parses(s: Seq<u8>, at: int, e: EditView)
    requires
        edit_encodable(e),
        0 <= at,
        at + edit_record(e).len() <= s.len(),
        s.subrange(at, at + edit_record(e).len()) == edit_record(e),
    ensures
        parse_record(s, at) == Some((e, at + edit_record(e).len())),
{
    reveal(parse_record);
    let p = edit_payload(e);
    let rec = edit_record(e);
    lemma_payload_len(e);
    let n = p.len() as int;
    let sub = s.subrange(at, at + rec.len());
    assert(s.subrange(at, at + 4) =~= be_u32(n as u32)) by {
        assert(s.subrange(at, at + 4) =~= sub.subrange(0, 4));
    }
    lemma_u32_at_be(s, at, n as u32);
    assert(s.subrange(at + 4, at + 8) =~= be_u32(crc32c(p))) by {
        assert(s.subrange(at + 4, at + 8) =~= sub.subrange(4, 8));
    }
    lemma_u32_at_be(s, at + 4, crc32c(p));
    assert(s.subrange(at + 8, at + 8 + n) =~= p) by {
        assert(s.subrange(at + 8, at + 8 + n) =~= sub.subrange(8, 8 + n));
    }
    // the payload's fields
    let q = at + 8;
    let a = opt_id_bytes(e.new_mut);
    let b = opt_id_bytes(e.mut_to_imm);
    let c = ids_bytes(e.compact_input_imm);
    let d = ids_bytes(e.compact_output_imm);
    lemma_ids_flat_len(e.compact_input_imm);
    lemma_ids_flat_len(e.compact_output_imm);
    assert(p =~= a + b + c + d);
    let at1 = q + a.len();
    let at2 = at1 + b.len();
    let at3 = at2 + c.len();
    let at4 = at3 + d.len();
    assert(at4 == at + 8 + n);
    assert(s.subrange(q, at1) =~= a) by {
        assert(s.subrange(q, at1) =~= p.subrange(0, a.len() as int));
    }
    assert(s.subrange(at1, at2) =~= b) by {
        assert(s.subrange(at1, at2) =~= p.subrange(a.len() as int, (a.len() + b.len()) as int));
    }
    assert(s.subrange(at2, at3) =~= c) by {
        assert(s.subrange(at2, at3) =~= p.subrange((a.len() + b.len()) as int, (a.len() + b.len() + c.len()) as int));
    }
    assert(s.subrange(at3, at4) =~= d) by {
        assert(s.subrange(at3, at4) =~= p.subrange((a.len() + b.len() + c.len()) as int, n));
    }
    reveal(parse_payload);
    lemma_opt_id_parses(s, q, at4, e.new_mut);
    lemma_opt_id_parses(s, at1, at4, e.mut_to_imm);
    lemma_ids_parse(s, at2, at4, e.compact_input_imm);
    lemma_ids_parse(s, at3, at4, e.compact_output_imm);
}

proof fn lemma_opt_id_parses(s: Seq<u8>, at: int, end: int, o: Option<FileId>)
    requires
        0 <= at,
        at + opt_id_bytes(o).len() <= end <= s.len(),
        s.subrange(at, at + opt_id_bytes(o).len()) == opt_id_bytes(o),
    ensures
        parse_opt_id(s, at, end) == Some((o, at + opt_id_bytes(o).len())),
{
    assert(s[at] == opt_id_bytes(o)[0]);
    match o {
        None => {},
        Some(x) => {
            assert(s.subrange(at + 1, at + 9) =~= be_u64(x)) by {
                assert(s.subrange(at + 1, at + 9) =~= s.subrange(at, at + 9).subrange(1, 9));
            }
            lemma_u64_at_be(s, at + 1, x);
        },
    }
}

proof fn lemma_ids_parse(s: Seq<u8>, at: int, end: int, v: Seq<FileId>)
    requires
        0 <= at,
        v.len() <= u32::MAX,
        at + ids_bytes(v).len() <= end <= s.len(),
        s.subrange(at, at + ids_bytes(v).len()) == ids_bytes(v),
    ensures
        parse_ids(s, at, end) == Some((v, at + ids_bytes(v).len())),
{
    lemma_ids_flat_len(v);
    let whole = s.subrange(at, at + ids_bytes(v).len());
    assert(s.subrange(at, at + 4) =~= be_u32(v.len() as u32)) by {
        assert(s.subrange(at, at + 4) =~= whole.subrange(0, 4));
    }
    lemma_u32_at_be(s, at, v.len() as u32);
    assert(s.subrange(at + 4, at + 4 + 8 * v.len()) =~= ids_flat(v)) by {
        assert(s.subrange(at + 4, at + 4 + 8 * v.len()) =~= whole.subrange(4, 4 + 8 * v.len() as int));
    }
    lemma_ids_at(s, at + 4, v);
}

proof fn lemma_log_ends(s: Seq<u8>)
    ensures
        parse_log(s, s.len() as int) == Seq::<EditView>::empty(),
        parsed_end(s, s.len() as int) == s.len(),
{
    reveal(parse_record);
}

/// A run of intact records parses back to its edits, whatever follows it.
pub proof fn lemma_log_parses(s: Seq<u8>, at: int, edits: Seq<EditView>)
    requires
        forall|i: int| 0 <= i < edits.len() ==> edit_encodable(#[trigger] edits[i]),
        0 <= at,
        at + log_of(edits).len() <= s.len(),
        s.subrange(at, at + log_of(edits).len()) == log_of(edits),
    ensures
        parse_log(s, at) == edits + parse_log(s, at + log_of(edits).len()),
        parsed_end(s, at) == parsed_end(s, at + log_of(edits).len()),
    decreases edits.len(),
{
    if edits.len() == 0 {
        assert(edits + parse_log(s, at) =~= parse_log(s, at));
    } else {
        let w = edits.drop_last();
        let e = edits.last();
        let lw = log_of(w).len() as int;
        let le = edit_record(e).len() as int;
        assert(log_of(edits) == log_of(w) + edit_record(e));
        assert(s.subrange(at, at + lw) =~= log_of(w)) by {
            assert(s.subrange(at, at + lw) =~= s.subrange(at, at + lw + le).subrange(0, lw));
        }
        assert forall|i: int| 0 <= i < w.len() implies edit_encodable(#[trigger] w[i]) by {
            assert(w[i] == edits[i]);
        }
        lemma_log_parses(s, at, w);
        assert(s.subrange(at + lw, at + lw + le) =~= edit_record(e)) by {
            assert(s.subrange(at + lw, at + lw + le) =~= s.subrange(at, at + lw + le).subrange(lw, lw + le));
        }
        assert(edit_encodable(edits[edits.len() - 1]));
        lemma_record_parses(s, at + lw, e);
        assert(le > 0);
        assert(parse_log(s, at + lw) == seq![e] + parse_log(s, at + lw + le));
        assert(edits =~= w + seq![e]);
        assert(parse_log(s, at) =~= edits + parse_log(s, at + lw + le));
    }
}

/// Durable append: once the record of an edit stands complete at the end
/// of the manifest, replaying the manifest gives the version that applying
/// the edit to the previously recovered version gives.
pub proof fn lemma_replay_after_append(manifest_id: FileId, edits: Seq<EditView>, e: EditView)
    requires
        forall|i: int| 0 <= i < edits.len() ==> edit_encodable(#[trigger] edits[i]),
        edit_encodable(e),
    ensures
        recovered(manifest_id, log_of(edits.push(e))) == apply_edit(
            recovered(manifest_id, log_of(edits)),
            e,
        ),
{
    let all = edits.push(e);
    assert forall|i: int| 0 <= i < all.len() implies edit_encodable(#[trigger] all[i]) by {
        if i < edits.len() {
            assert(all[i] == edits[i]);
        }
    }
    let s = log_of(all);
    assert(s.subrange(0, s.len() as int) =~= s);
    lemma_log_parses(s, 0, all);
    lemma_log_ends(s);
    assert(parse_log(s, 0) =~= all);
    let t = log_of(edits);
    assert(t.subrange(0, t.len() as int) =~= t);
    lemma_log_parses(t, 0, edits);
    lemma_log_ends(t);
    assert(parse_log(t, 0) =~= edits);
    lemma_replay_push(genesis(manifest_id), edits, e);
}

/// Torn append: when only part of an edit's record reached the manifest,
/// replaying it gives the version from before the edit.
pub proof fn lemma_replay_after_torn_append(
    manifest_id: FileId,
    edits: Seq<EditView>,
    e: EditView,
    written: nat,
)
    requires
        forall|i: int| 0 <= i < edits.len() ==> edit_encodable(#[trigger] edits[i]),
        edit_encodable(e),
        written < edit_record(e).len(),
    ensures
        recovered(manifest_id, log_of(edits) + edit_record(e).subrange(0, written as int))
            == recovered(manifest_id, log_of(edits)),
{
    let t = log_of(edits);
    let torn = edit_record(e).subrange(0, written as int);
    let s = t + torn;
    assert(s.subrange(0, t.len() as int) =~= t);
    lemma_log_parses(s, 0, edits);
    let at = t.len() as int;
    lemma_payload_len(e);
    if written >= 4 {
        assert(s.subrange(at, at + 4) =~= be_u32(edit_payload(e).len() as u32));
        lemma_u32_at_be(s, at, edit_payload(e).len() as u32);
    }
    assert(parse_record(s, at) is None) by {
        reveal(parse_record);
    }
    assert(parse_log(s, at) =~= Seq::<EditView>::empty());
    assert(parse_log(s, 0) =~= edits);
    assert(t.subrange(0, t.len() as int) =~= t);
    lemma_log_parses(t, 0, edits);
    lemma_log_ends(t);
    assert(parse_log(t, 0) =~= edits);
}

} // verus!
