//! The engine core: the mutable and immutable segments, the index and the
//! version set, and the decisions of the write and read paths.
//!
//! The core performs no I/O. A write goes: `needs_rotation`; if so,
//! `begin_rotation`, create the new segment file, append the edit's record
//! to the manifest and sync it, `finish_rotation` with the outcome; then
//! `plan_write`, append the plan's bytes at its offset (and sync when asked),
//! `commit_write` with the outcomes. A read goes: `locate`, read the handle's
//! bytes, `finish_get`. The core keeps a model of what each segment file
//! holds and proves that every handle in the index denotes the frame of the
//! latest entry of its key.
use vstd::prelude::*;

use crate::codec::{
    append_bytes, copy_range, decode_spec, read_u32, u32_at, HEADER_SIZE, lemma_decode_unverified, lemma_round_trip, opt_bytes_view,
    EntryView, OpType, OwnedEntry,
};
use crate::errors::{DBError, DBResult};
use crate::index::MemIndex;
use crate::manifest::{parsed_end, recovered};
use crate::options::Options;
use crate::segment::{EntryHandle, FileId, LogFile, INVALID_FILE_ID};
use crate::version::{apply_edit, contains_id, genesis, EditView, VersionEdit, VersionView};
use crate::versionset::{VersionSet, FIRST_MANIFEST_ID};
use crate::writebatch::{batch_entry_ok, WriteBatch};

verus! {

broadcast use vstd::seq_lib::group_seq_properties;

/// Applies the operations in order: each becomes the latest entry of its key.
pub open spec fn apply_ops(m: Map<Seq<u8>, EntryView>, ops: Seq<EntryView>) -> Map<Seq<u8>, EntryView>
    decreases ops.len(),
{
    if ops.len() == 0 {
        m
    } else {
        apply_ops(m, ops.drop_last()).insert(ops.last().key, ops.last())
    }
}

/// What a read of `k` returns when `m` holds the latest entries: the value
/// of a put, nothing for a delete or an unknown key.
pub open spec fn visible(m: Map<Seq<u8>, EntryView>, k: Seq<u8>) -> Option<Seq<u8>> {
    if m.contains_key(k) && m[k].op_type == OpType::Put {
        m[k].value
    } else {
        None
    }
}

/// The last operation on `k` among `ops`, if any.
pub open spec fn last_op_on(ops: Seq<EntryView>, k: Seq<u8>) -> Option<EntryView>
    decreases ops.len(),
{
    if ops.len() == 0 {
        None
    } else if ops.last().key == k {
        Some(ops.last())
    } else {
        last_op_on(ops.drop_last(), k)
    }
}

/// The value that an operation leaves visible.
pub open spec fn left_visible(e: EntryView) -> Option<Seq<u8>> {
    if e.op_type == OpType::Put {
        e.value
    } else {
        None
    }
}

/// The frames of the operations, one after another.
pub open spec fn frames_of(ops: Seq<EntryView>) -> Seq<u8>
    decreases ops.len(),
{
    if ops.len() == 0 {
        Seq::empty()
    } else {
        frames_of(ops.drop_last()) + ops.last().frame()
    }
}

/// The edit of a rotation: `new` becomes the mutable segment and the old
/// mutable segment, if any, is retired.
pub open spec fn rotation_edit(old: Option<FileId>, new: FileId) -> EditView {
    EditView {
        new_mut: Some(new),
        mut_to_imm: old,
        compact_input_imm: Seq::empty(),
        compact_output_imm: Seq::empty(),
    }
}

/// Last write wins: after a run of operations, a key shows the value of the
/// last operation on it (nothing if that was a delete), or what it showed
/// before if the run does not touch it.
pub proof fn lemma_last_write_wins(m: Map<Seq<u8>, EntryView>, ops: Seq<EntryView>, k: Seq<u8>)
    requires
        forall|i: int| 0 <= i < ops.len() ==> (#[trigger] ops[i]).kind_matches_value(),
    ensures
        visible(apply_ops(m, ops), k) == match last_op_on(ops, k) {
            Some(e) => left_visible(e),
            None => visible(m, k),
        },
    decreases ops.len(),
{
    if ops.len() > 0 {
        let w = ops.drop_last();
        assert forall|i: int| 0 <= i < w.len() implies (#[trigger] w[i]).kind_matches_value() by {
            assert(w[i] == ops[i]);
        }
        assert(ops.last() == ops[ops.len() - 1]);
        lemma_last_write_wins(m, w, k);
    }
}

/// Tombstones: once a run of operations deletes a key and no later
/// operation of the run puts it, the key shows nothing, whatever was put
/// before.
pub proof fn lemma_tombstone(m: Map<Seq<u8>, EntryView>, ops: Seq<EntryView>, k: Seq<u8>, d: int)
    requires
        forall|i: int| 0 <= i < ops.len() ==> (#[trigger] ops[i]).kind_matches_value(),
        0 <= d < ops.len(),
        ops[d].key == k,
        ops[d].op_type == OpType::Del,
        forall|i: int| d < i < ops.len() ==> (#[trigger] ops[i]).key != k || ops[i].op_type == OpType::Del,
    ensures
        visible(apply_ops(m, ops), k) == None::<Seq<u8>>,
{
    lemma_last_write_wins(m, ops, k);
    lemma_last_op_after(ops, k, d);
}

proof fn lemma_last_op_after(ops: Seq<EntryView>, k: Seq<u8>, d: int)
    requires
        0 <= d < ops.len(),
        ops[d].key == k,
        ops[d].op_type == OpType::Del,
        forall|i: int| d < i < ops.len() ==> (#[trigger] ops[i]).key != k || ops[i].op_type == OpType::Del,
    ensures
        last_op_on(ops, k) matches Some(e) && e.op_type == OpType::Del,
    decreases ops.len(),
{
    assert(ops.last() == ops[ops.len() - 1]);
    if d < ops.len() - 1 {
        let w = ops.drop_last();
        assert forall|i: int| d < i < w.len() implies (#[trigger] w[i]).key != k || w[i].op_type == OpType::Del by {
            assert(w[i] == ops[i]);
        }
        if ops.last().key != k {
            lemma_last_op_after(w, k, d);
        }
    }
}

/// Rotation: the new segment becomes the only mutable one, and the old
/// mutable segment joins the immutable set; nothing else changes.
pub proof fn lemma_rotation(v: VersionView, old: FileId, new: FileId)
    ensures
        apply_edit(v, rotation_edit(Some(old), new)) == (VersionView {
            mut_id: new,
            imm: v.imm.insert(old),
            manifest_id: v.manifest_id,
        }),
{
    assert(apply_edit(v, rotation_edit(Some(old), new)).imm =~= v.imm.insert(old));
}

proof fn lemma_frames_prefix(ops: Seq<EntryView>, j: int)
    requires
        0 <= j <= ops.len(),
    ensures
        frames_of(ops.subrange(0, j)).len() <= frames_of(ops).len(),
        frames_of(ops).subrange(0, frames_of(ops.subrange(0, j)).len() as int) == frames_of(
            ops.subrange(0, j),
        ),
    decreases ops.len(),
{
    if j == ops.len() {
        assert(ops.subrange(0, j) =~= ops);
        assert(frames_of(ops).subrange(0, frames_of(ops).len() as int) =~= frames_of(ops));
    } else {
        let w = ops.drop_last();
        assert(ops.subrange(0, j) =~= w.subrange(0, j));
        lemma_frames_prefix(w, j);
        let a = frames_of(ops.subrange(0, j)).len() as int;
        assert(frames_of(ops) == frames_of(w) + ops.last().frame());
        assert(frames_of(ops).subrange(0, a) =~= frames_of(w).subrange(0, a));
    }
}

/// The frame of the `i`-th operation sits in the concatenated frames right
/// after the frames of the operations before it.
proof fn lemma_frame_at(ops: Seq<EntryView>, i: int)
    requires
        0 <= i < ops.len(),
    ensures
        frames_of(ops.subrange(0, i)).len() + ops[i].frame().len() <= frames_of(ops).len(),
        frames_of(ops).subrange(
            frames_of(ops.subrange(0, i)).len() as int,
            (frames_of(ops.subrange(0, i)).len() + ops[i].frame().len()) as int,
        ) == ops[i].frame(),
{
    lemma_frames_prefix(ops, i + 1);
    let p = ops.subrange(0, i + 1);
    assert(p.drop_last() =~= ops.subrange(0, i));
    assert(p.last() == ops[i]);
    let a = frames_of(ops.subrange(0, i)).len() as int;
    let b = a + ops[i].frame().len();
    assert(frames_of(p) == frames_of(ops.subrange(0, i)) + ops[i].frame());
    assert(frames_of(ops).subrange(a, b) =~= frames_of(p).subrange(a, b));
}

/// The header of the frame at `at`: where the frame would end.
pub open spec fn frame_end(s: Seq<u8>, at: int) -> int {
    at + HEADER_SIZE + u32_at(s, at + 12) + 1 + u32_at(s, at + 16)
}

/// The entry of the intact frame at `at`, if one starts there.
pub open spec fn frame_entry(s: Seq<u8>, at: int) -> Option<EntryView> {
    if 0 <= at && at + HEADER_SIZE <= s.len() && frame_end(s, at) <= s.len() {
        match decode_spec(s.subrange(at, frame_end(s, at)), true) {
            Ok(e) => Some(e),
            Err(_) => None,
        }
    } else {
        None
    }
}

/// The entries of the intact frames that follow one another from `at`;
/// scanning stops where no intact frame starts, such as a torn append.
pub open spec fn scan_frames(s: Seq<u8>, at: int) -> Seq<EntryView>
    decreases s.len() - at,
{
    match frame_entry(s, at) {
        Some(e) => if at < frame_end(s, at) <= s.len() {
            seq![e] + scan_frames(s, frame_end(s, at))
        } else {
            Seq::empty()
        },
        None => Seq::empty(),
    }
}

/// Where the run of intact frames that starts at `at` ends.
pub open spec fn scan_end(s: Seq<u8>, at: int) -> int
    decreases s.len() - at,
{
    match frame_entry(s, at) {
        Some(e) => if at < frame_end(s, at) <= s.len() {
            scan_end(s, frame_end(s, at))
        } else {
            at
        },
        None => at,
    }
}

proof fn lemma_decoded_ok(s: Seq<u8>, verify: bool)
    requires
        decode_spec(s, verify) is Ok,
    ensures
        batch_entry_ok(decode_spec(s, verify)->Ok_0),
{
}

/// The bytes of a batch, framed, with the handle each frame will have once
/// the bytes are appended at `offset` of segment `file_id`.
pub struct WritePlan {
    data: Vec<u8>,
    file_id: FileId,
    offset: u64,
    keys: Vec<Vec<u8>>,
    handles: Vec<EntryHandle>,
    ops: Ghost<Seq<EntryView>>,
}

impl WritePlan {
    pub closed spec fn spec_ops(&self) -> Seq<EntryView> {
        self.ops@
    }

    pub closed spec fn spec_data(&self) -> Seq<u8> {
        self.data@
    }

    pub closed spec fn spec_file_id(&self) -> FileId {
        self.file_id
    }

    pub closed spec fn spec_offset(&self) -> u64 {
        self.offset
    }

    /// The handle the `i`-th operation's frame gets.
    pub open spec fn handle_of(&self, i: int) -> EntryHandle {
        EntryHandle {
            file_id: self.spec_file_id(),
            offset: (self.spec_offset() + frames_of(self.spec_ops().subrange(0, i)).len()) as u64,
            length: self.spec_ops()[i].frame().len() as u64,
        }
    }

    pub closed spec fn wf(&self) -> bool {
        &&& self.data@ == frames_of(self.ops@)
        &&& self.offset + self.data@.len() <= u64::MAX
        &&& self.keys@.len() == self.ops@.len()
        &&& self.handles@.len() == self.ops@.len()
        &&& forall|i: int| 0 <= i < self.ops@.len() ==> batch_entry_ok(#[trigger] self.ops@[i])
        &&& forall|i: int| 0 <= i < self.ops@.len() ==> (#[trigger] self.keys@[i])@ == self.ops@[i].key
        &&& forall|i: int| 0 <= i < self.ops@.len() ==> #[trigger] self.handles@[i] == self.handle_of(i)
    }

    /// The bytes to append.
    pub fn data(&self) -> (r: &[u8])
        ensures
            r@ == self.spec_data(),
    {
        self.data.as_slice()
    }

    /// The segment to append to.
    pub fn file_id(&self) -> (r: FileId)
        ensures
            r == self.spec_file_id(),
    {
        self.file_id
    }

    /// Where in the segment the bytes go.
    pub fn offset(&self) -> (r: u64)
        ensures
            r == self.spec_offset(),
    {
        self.offset
    }
}

/// The mutex-guarded state of the engine.
pub struct BitcaskCore {
    active_file: Option<LogFile>,
    freeze_files: Vec<FileId>,
    mem_index: MemIndex,
    version_set: VersionSet,
    bg_error: Option<DBError>,
    target_file_size: u64,
    segments: Ghost<Map<FileId, Seq<u8>>>,
    latest: Ghost<Map<Seq<u8>, EntryView>>,
}

impl BitcaskCore {
    /// The latest entry of each key that was ever written.
    pub closed spec fn entries(&self) -> Map<Seq<u8>, EntryView> {
        self.latest@
    }

    /// What each held segment file holds, up to its tail.
    pub closed spec fn segments(&self) -> Map<FileId, Seq<u8>> {
        self.segments@
    }

    /// The installed version.
    pub closed spec fn version(&self) -> VersionView {
        self.version_set.current_view()
    }

    /// The handles of the index.
    pub closed spec fn index(&self) -> Map<Seq<u8>, EntryHandle> {
        self.mem_index.view()
    }

    /// The mutable segment, if any.
    pub closed spec fn active_id(&self) -> Option<FileId> {
        match self.active_file {
            Some(f) => Some(f.id()),
            None => None,
        }
    }

    /// The tail offset of the mutable segment.
    pub closed spec fn active_tail(&self) -> u64 {
        match self.active_file {
            Some(f) => f.tail(),
            None => 0,
        }
    }

    /// The immutable segments.
    pub closed spec fn frozen(&self) -> Seq<FileId> {
        self.freeze_files@
    }

    pub closed spec fn next_id(&self) -> FileId {
        self.version_set.next_id()
    }

    pub closed spec fn spec_bg_error(&self) -> Option<DBError> {
        self.bg_error
    }

    pub closed spec fn target(&self) -> u64 {
        self.target_file_size
    }

    /// The bytes a handle denotes in the segment model.
    pub open spec fn frame_at(&self, h: EntryHandle) -> Seq<u8> {
        self.segments()[h.file_id].subrange(h.offset as int, h.offset + h.length)
    }

    /// A handle that denotes whole bytes of a held segment.
    pub open spec fn handle_valid(&self, h: EntryHandle) -> bool {
        &&& self.segments().contains_key(h.file_id)
        &&& h.offset + h.length <= self.segments()[h.file_id].len()
    }

    /// The invariant of the core: the index and the latest entries agree,
    /// every handle denotes the frame of its key's latest entry inside a
    /// held segment, and the held segments are exactly those of the version.
    pub closed spec fn wf(&self) -> bool {
        &&& self.mem_index.wf()
        &&& self.index().dom() == self.entries().dom()
        &&& forall|k: Seq<u8>| #[trigger] self.index().contains_key(k) ==> {
            &&& self.handle_valid(self.index()[k])
            &&& decode_spec(self.frame_at(self.index()[k]), true) == Ok::<EntryView, DBError>(
                self.entries()[k],
            )
            &&& self.entries()[k].key == k
            &&& batch_entry_ok(self.entries()[k])
        }
        &&& match self.active_file {
            Some(f) => {
                &&& self.segments().contains_key(f.id())
                &&& f.tail() == self.segments()[f.id()].len()
                &&& self.version().mut_id == f.id()
                &&& f.id() != INVALID_FILE_ID
                &&& !self.freeze_files@.contains(f.id())
            },
            None => self.version().mut_id == INVALID_FILE_ID,
        }
        &&& self.version().imm == self.freeze_files@.to_set()
        &&& !self.segments().contains_key(INVALID_FILE_ID)
        &&& self.next_id() > INVALID_FILE_ID
        &&& forall|id: FileId| #[trigger] self.segments().contains_key(id) ==> id < self.next_id()
        &&& forall|id: FileId| #[trigger]
            self.segments().contains_key(id) <==> (self.active_id() == Some(id)
                || self.freeze_files@.contains(id))
    }

    /// The core of an empty database in `dbpath`: no segment, empty index.
    pub fn new(dbpath: String, options: &Options) -> (r: BitcaskCore)
        ensures
            r.wf(),
            r.entries() == Map::<Seq<u8>, EntryView>::empty(),
            r.active_id() is None,
            r.frozen() == Seq::<FileId>::empty(),
            r.version() == genesis(FIRST_MANIFEST_ID),
            r.spec_bg_error() is None,
            r.target() == options.target_file_size,
    {
        let r = BitcaskCore {
            active_file: None,
            freeze_files: Vec::new(),
            mem_index: MemIndex::new(),
            version_set: VersionSet::new(dbpath),
            bg_error: None,
            target_file_size: options.target_file_size,
            segments: Ghost(Map::empty()),
            latest: Ghost(Map::empty()),
        };
        assert(r.index().dom() =~= r.entries().dom());
        assert(r.version().imm =~= r.freeze_files@.to_set());
        r
    }

    /// The version set, for naming and recovering the manifest.
    pub fn version_set(&self) -> (r: &VersionSet)
        ensures
            r.current_view() == self.version(),
            r.next_id() == self.next_id(),
    {
        &self.version_set
    }

    /// The error recorded by a failed sync, if any.
    pub fn bg_error(&self) -> (r: Option<DBError>)
        ensures
            r == self.spec_bg_error(),
    {
        self.bg_error
    }

    /// The mutable segment's id and tail offset, if there is one.
    pub fn active(&self) -> (r: Option<(FileId, u64)>)
        ensures
            r == match self.active_id() {
                Some(id) => Some((id, self.active_tail())),
                None => None::<(FileId, u64)>,
            },
    {
        match &self.active_file {
            Some(f) => Some((f.get_file_id(), f.get_offset())),
            None => None,
        }
    }

    /// A write must first rotate: there is no mutable segment, or its tail
    /// has reached the rotation threshold.
    pub fn needs_rotation(&self) -> (r: bool)
        ensures
            r == (self.active_id() is None || self.active_tail() >= self.target()),
    {
        match &self.active_file {
            Some(f) => f.get_offset() >= self.target_file_size,
            None => true,
        }
    }

    /// Allocates the id of the next mutable segment and builds the edit
    /// that installs it. Fails with `IOError` once ids are exhausted.
    pub fn begin_rotation(&mut self) -> (r: DBResult<VersionEdit>)
        requires
            old(self).wf(),
        ensures
            final(self).wf(),
            match r {
                Ok(edit) => {
                    &&& old(self).next_id() < u64::MAX
                    &&& edit@ == rotation_edit(old(self).active_id(), old(self).next_id())
                    &&& final(self).next_id() == old(self).next_id() + 1
                    &&& old(self).next_id() != INVALID_FILE_ID
                    &&& !final(self).segments().contains_key(old(self).next_id())
                },
                Err(e) => e == DBError::IOError && old(self).next_id() == u64::MAX
                    && final(self).next_id() == old(self).next_id(),
            },
            final(self).entries() == old(self).entries(),
            final(self).segments() == old(self).segments(),
            final(self).version() == old(self).version(),
            final(self).active_id() == old(self).active_id(),
            final(self).active_tail() == old(self).active_tail(),
            final(self).frozen() == old(self).frozen(),
            final(self).spec_bg_error() == old(self).spec_bg_error(),
            final(self).target() == old(self).target(),
    {
        if self.version_set.next_logfile_id() == u64::MAX {
            return Err(DBError::IOError);
        }
        let id = self.version_set.new_logfile_id();
        assert(!self.segments().contains_key(id));
        assert(id != INVALID_FILE_ID);
        let mut edit = VersionEdit::new();
        edit.new_mut = Some(id);
        edit.mut_to_imm = match &self.active_file {
            Some(f) => Some(f.get_file_id()),
            None => None,
        };
        assert(edit@.compact_input_imm =~= Seq::<FileId>::empty());
        Ok(edit)
    }

    /// Completes a rotation once the edit's record has been appended to the
    /// manifest and synced (`appended` is the outcome). Only after that does
    /// the old mutable segment become immutable and the new one mutable;
    /// on failure nothing changes and the error is returned. An edit that
    /// is not a rotation of the current state is refused with
    /// `InvariantViolation`.
    pub fn finish_rotation(&mut self, edit: &VersionEdit, appended: DBResult<()>) -> (r: DBResult<()>)
        requires
            old(self).wf(),
        ensures
            final(self).wf(),
            final(self).entries() == old(self).entries(),
            final(self).index() == old(self).index(),
            final(self).next_id() == old(self).next_id(),
            final(self).spec_bg_error() == old(self).spec_bg_error(),
            final(self).target() == old(self).target(),
            ({
                let ok_edit = edit@.new_mut matches Some(id) && edit@ == rotation_edit(
                    old(self).active_id(),
                    id,
                ) && id != INVALID_FILE_ID && !old(self).segments().contains_key(id) && id
                    < old(self).next_id();
                if !ok_edit {
                    r == Err::<(), DBError>(DBError::InvariantViolation) && *final(self) == *old(self)
                } else if appended is Err {
                    r == appended && *final(self) == *old(self)
                } else {
                    &&& r is Ok
                    &&& final(self).version() == apply_edit(old(self).version(), edit@)
                    &&& final(self).active_id() == edit@.new_mut
                    &&& final(self).active_tail() == 0
                    &&& final(self).frozen() == match old(self).active_id() {
                        Some(o) => old(self).frozen().push(o),
                        None => old(self).frozen(),
                    }
                    &&& final(self).segments() == old(self).segments().insert(
                        edit@.new_mut.unwrap(),
                        Seq::empty(),
                    )
                }
            }),
    {
        let id = match edit.new_mut {
            Some(id) => id,
            None => return Err(DBError::InvariantViolation),
        };
        let old_id = match &self.active_file {
            Some(f) => Some(f.get_file_id()),
            None => None,
        };
        let retire_ok = match (edit.mut_to_imm, old_id) {
            (Some(a), Some(b)) => a == b,
            (None, None) => true,
            _ => false,
        };
        if !retire_ok || id == INVALID_FILE_ID || edit.compact_input_imm.len() != 0
            || edit.compact_output_imm.len() != 0 {
            proof {
                if edit@.compact_input_imm.len() != 0 {
                    assert(edit@.compact_input_imm != Seq::<FileId>::empty());
                }
                if edit@.compact_output_imm.len() != 0 {
                    assert(edit@.compact_output_imm != Seq::<FileId>::empty());
                }
            }
            return Err(DBError::InvariantViolation);
        }
        if old_id == Some(id) || contains_id(&self.freeze_files, id)
            || id >= self.version_set.next_logfile_id() {
            return Err(DBError::InvariantViolation);
        }
        assert(edit@.compact_input_imm =~= Seq::<FileId>::empty());
        assert(edit@.compact_output_imm =~= Seq::<FileId>::empty());
        assert(edit@ == rotation_edit(old(self).active_id(), id));
        assert(!old(self).segments().contains_key(id));
        if appended.is_err() {
            return appended;
        }
        let r = self.version_set.log_and_apply(edit, appended);
        let ghost old_frozen = self.freeze_files@;
        match self.active_file.take() {
            Some(f) => {
                self.freeze_files.push(f.get_file_id());
                proof {
                    old_frozen.lemma_push_to_set_commute(f.id());
                }
            },
            None => {},
        }
        self.active_file = Some(LogFile::new(id));
        self.segments = Ghost(self.segments@.insert(id, Seq::empty()));
        proof {
            assert(self.version().imm =~= self.freeze_files@.to_set());
            assert forall|k: Seq<u8>| #[trigger] self.index().contains_key(k) implies {
                &&& self.handle_valid(self.index()[k])
                &&& decode_spec(self.frame_at(self.index()[k]), true) == Ok::<EntryView, DBError>(
                    self.entries()[k],
                )
            } by {
                let h = old(self).index()[k];
                assert(old(self).handle_valid(h));
                assert(h.file_id != id);
                assert(self.frame_at(h) == old(self).frame_at(h));
            }
        }
        r
    }

    /// Frames the batch for the mutable segment. Fails with the recorded
    /// background error if a sync failed before, with `InvariantViolation`
    /// when there is no mutable segment (rotate first), and with `IOError`
    /// when the segment would outgrow 64-bit offsets.
    pub fn plan_write(&self, batch: &WriteBatch) -> (r: DBResult<WritePlan>)
        requires
            self.wf(),
            batch.wf(),
        ensures
            match r {
                Ok(plan) => {
                    &&& plan.wf()
                    &&& self.spec_bg_error() is None
                    &&& self.active_id() == Some(plan.spec_file_id())
                    &&& plan.spec_offset() == self.active_tail()
                    &&& plan.spec_ops() == batch.ops()
                    &&& plan.spec_data() == frames_of(batch.ops())
                },
                Err(e) => match self.spec_bg_error() {
                    Some(b) => e == b,
                    None => if self.active_id() is None {
                        e == DBError::InvariantViolation
                    } else {
                        e == DBError::IOError && self.active_tail() + frames_of(batch.ops()).len()
                            > u64::MAX
                    },
                },
            },
    {
        if let Some(e) = self.bg_error {
            return Err(e);
        }
        let (file_id, offset) = match &self.active_file {
            Some(f) => (f.get_file_id(), f.get_offset()),
            None => return Err(DBError::InvariantViolation),
        };
        let mut data: Vec<u8> = Vec::new();
        let mut keys: Vec<Vec<u8>> = Vec::new();
        let mut handles: Vec<EntryHandle> = Vec::new();
        let ghost ops = batch.ops();
        let n = batch.len();
        let mut i: usize = 0;
        while i < n
            invariant
                n == ops.len(),
                ops == batch.ops(),
                batch.wf(),
                self.active_id() == Some(file_id),
                self.active_tail() == offset,
                self.spec_bg_error() is None,
                i <= n,
                data@ == frames_of(ops.subrange(0, i as int)),
                offset + data@.len() <= u64::MAX,
                keys@.len() == i,
                handles@.len() == i,
                forall|j: int| 0 <= j < i ==> (#[trigger] keys@[j])@ == ops[j].key,
                forall|j: int| 0 <= j < i ==> #[trigger] handles@[j] == (EntryHandle {
                    file_id,
                    offset: (offset + frames_of(ops.subrange(0, j)).len()) as u64,
                    length: ops[j].frame().len() as u64,
                }),
            decreases n - i,
        {
            let e = batch.entry(i);
            let frame = e.encode_to_bytes();
            proof {
                let p = ops.subrange(0, i + 1);
                assert(p.drop_last() =~= ops.subrange(0, i as int));
                assert(p.last() == ops[i as int]);
            }
            if frame.len() as u64 > u64::MAX - offset || data.len() as u64 > u64::MAX - offset
                - frame.len() as u64 {
                proof {
                    lemma_frames_prefix(ops, i + 1);
                    let p = ops.subrange(0, i + 1);
                    assert(frames_of(p) == frames_of(p.drop_last()) + p.last().frame());
                    assert(frames_of(p).len() == data@.len() + frame@.len());
                    assert(offset + frames_of(ops).len() > u64::MAX);
                }
                return Err(DBError::IOError);
            }
            let h = EntryHandle {
                file_id,
                offset: offset + data.len() as u64,
                length: frame.len() as u64,
            };
            keys.push(copy_range(e.key.as_slice(), 0, e.key.len()));
            proof {
                assert(e.key@.subrange(0, e.key@.len() as int) =~= e.key@);
            }
            handles.push(h);
            append_bytes(&mut data, frame.as_slice());
            i = i + 1;
        }
        assert(ops.subrange(0, n as int) =~= ops);
        let plan = WritePlan { data, file_id, offset, keys, handles, ops: Ghost(ops) };
        proof {
            batch.lemma_wf_ops();
        }
        Ok(plan)
    }

    /// Publishes a planned batch once its bytes were appended at the plan's
    /// offset (`appended`) and, for a synchronous write, the segment was
    /// synced (`synced`; pass `Ok(())` otherwise). The tail advances past
    /// the bytes and every handle is upserted in batch order, so the last
    /// operation on a key wins. A failed append changes nothing; a failed
    /// sync changes nothing but is recorded, and later writes fail with it.
    /// A plan made for another tail or segment is refused with
    /// `InvariantViolation`.
    #[verifier::rlimit(60)]
    pub fn commit_write(&mut self, plan: WritePlan, appended: DBResult<()>, synced: DBResult<()>) -> (r:
        DBResult<()>)
        requires
            old(self).wf(),
            plan.wf(),
        ensures
            final(self).wf(),
            final(self).version() == old(self).version(),
            final(self).frozen() == old(self).frozen(),
            final(self).active_id() == old(self).active_id(),
            final(self).next_id() == old(self).next_id(),
            final(self).target() == old(self).target(),
            if old(self).active_id() != Some(plan.spec_file_id()) || old(self).active_tail()
                != plan.spec_offset() {
                r == Err::<(), DBError>(DBError::InvariantViolation) && *final(self) == *old(self)
            } else if appended is Err {
                r == appended && *final(self) == *old(self)
            } else if synced is Err {
                &&& r == synced
                &&& final(self).spec_bg_error() == Some(synced->Err_0)
                &&& final(self).entries() == old(self).entries()
                &&& final(self).index() == old(self).index()
                &&& final(self).segments() == old(self).segments()
                &&& final(self).active_tail() == old(self).active_tail()
            } else {
                &&& r is Ok
                &&& final(self).entries() == apply_ops(old(self).entries(), plan.spec_ops())
                &&& final(self).segments() == old(self).segments().insert(
                    plan.spec_file_id(),
                    old(self).segments()[plan.spec_file_id()] + plan.spec_data(),
                )
                &&& final(self).active_tail() == old(self).active_tail() + plan.spec_data().len()
                &&& final(self).spec_bg_error() == old(self).spec_bg_error()
            },
    {
        let fresh = match &self.active_file {
            Some(f) => f.get_file_id() == plan.file_id && f.get_offset() == plan.offset,
            None => false,
        };
        if !fresh {
            return Err(DBError::InvariantViolation);
        }
        if appended.is_err() {
            return appended;
        }
        if let Err(e) = synced {
            self.bg_error = Some(e);
            return Err(e);
        }
        let ghost ops = plan.ops@;
        let ghost old_latest = self.latest@;
        let ghost id = plan.file_id;
        let ghost old_seg = self.segments@[id];
        let n = plan.data.len() as u64;
        match &mut self.active_file {
            Some(f) => f.advance(n),
            None => {},
        }
        self.segments = Ghost(self.segments@.insert(id, old_seg + plan.data@));
        proof {
            assert forall|k: Seq<u8>| #[trigger] self.index().contains_key(k) implies {
                &&& self.handle_valid(self.index()[k])
                &&& decode_spec(self.frame_at(self.index()[k]), true) == Ok::<EntryView, DBError>(
                    self.entries()[k],
                )
            } by {
                let h = old(self).index()[k];
                assert(old(self).handle_valid(h));
                if h.file_id == id {
                    assert(self.frame_at(h) =~= old(self).frame_at(h));
                } else {
                    assert(self.frame_at(h) == old(self).frame_at(h));
                }
            }
            assert(ops.subrange(0, 0) =~= Seq::<EntryView>::empty());
        }
        let mut i: usize = 0;
        while i < plan.keys.len()
            invariant
                plan.wf(),
                ops == plan.ops@,
                id == plan.file_id,
                i <= ops.len(),
                self.wf(),
                self.segments@ == old(self).segments@.insert(id, old_seg + plan.data@),
                old_seg.len() == plan.offset,
                self.latest@ == apply_ops(old_latest, ops.subrange(0, i as int)),
                self.version() == old(self).version(),
                self.freeze_files@ == old(self).freeze_files@,
                self.active_id() == old(self).active_id(),
                self.active_tail() == old(self).active_tail() + plan.data@.len(),
                self.next_id() == old(self).next_id(),
                self.target() == old(self).target(),
                self.bg_error == old(self).bg_error,
            decreases ops.len() - i,
        {
            let ghost h = plan.handle_of(i as int);
            let ghost e = ops[i as int];
            proof {
                lemma_frame_at(ops, i as int);
                lemma_round_trip(e, true);
                let a = frames_of(ops.subrange(0, i as int)).len() as int;
                let seg = self.segments@[id];
                assert(seg == old_seg + frames_of(ops));
                assert(self.frame_at(h) =~= frames_of(ops).subrange(a, a + e.frame().len()));
                assert(plan.handles@[i as int] == h);
                assert(plan.keys@[i as int]@ == e.key);
            }
            self.mem_index.upsert(plan.keys[i].as_slice(), plan.handles[i]);
            self.latest = Ghost(self.latest@.insert(e.key, e));
            proof {
                assert(ops.subrange(0, i + 1).drop_last() =~= ops.subrange(0, i as int));
                assert(ops.subrange(0, i + 1).last() == e);
                assert(self.index().dom() =~= self.entries().dom());
            }
            i = i + 1;
        }
        assert(ops.subrange(0, ops.len() as int) =~= ops);
        Ok(())
    }

    /// Finds the handle of `key`'s latest entry: none for a key never
    /// written. A handle into a segment the core does not hold would be an
    /// `InvariantViolation`; the invariant rules it out.
    pub fn locate(&self, key: &[u8]) -> (r: DBResult<Option<EntryHandle>>)
        requires
            self.wf(),
        ensures
            r == Ok::<Option<EntryHandle>, DBError>(
                if self.index().contains_key(key@) {
                    Some(self.index()[key@])
                } else {
                    None
                },
            ),
            r matches Ok(Some(h)) ==> (self.handle_valid(h) && h.file_id != INVALID_FILE_ID),
            self.index().dom() == self.entries().dom(),
    {
        let h = match self.mem_index.lookup(key) {
            Some(h) => h,
            None => return Ok(None),
        };
        proof {
            assert(self.index().contains_key(key@));
            assert(self.segments().contains_key(h.file_id));
        }
        let held = match &self.active_file {
            Some(f) => f.get_file_id() == h.file_id,
            None => false,
        } || contains_id(&self.freeze_files, h.file_id);
        if !held {
            return Err(DBError::InvariantViolation);
        }
        if h.file_id == INVALID_FILE_ID {
            return Err(DBError::InvariantViolation);
        }
        Ok(Some(h))
    }

    /// Turns the bytes read at `handle` into the result of a read: the
    /// value of a put, nothing for a delete. Fewer or more bytes than the
    /// handle's length give `TruncatedRead`; a frame that does not decode
    /// gives the decoder's error. When the bytes are those the handle of
    /// `key` denotes, the result is the value `key` shows.
    pub fn finish_get(&self, key: &[u8], handle: EntryHandle, bytes: &[u8], verify_checksum: bool) -> (r:
        DBResult<Option<Vec<u8>>>)
        requires
            self.wf(),
        ensures
            bytes@.len() != handle.length ==> r == Err::<Option<Vec<u8>>, DBError>(
                DBError::TruncatedRead,
            ),
            bytes@.len() == handle.length ==> match decode_spec(bytes@, verify_checksum) {
                Ok(e) => (r matches Ok(v) && opt_bytes_view(v) == left_visible(e)),
                Err(err) => r == Err::<Option<Vec<u8>>, DBError>(err),
            },
            self.index().contains_key(key@) && handle == self.index()[key@] && bytes@
                == self.frame_at(handle) ==> (r matches Ok(v) && opt_bytes_view(v) == visible(
                self.entries(),
                key@,
            )),
    {
        if bytes.len() as u64 != handle.length {
            return Err(DBError::TruncatedRead);
        }
        proof {
            if self.index().contains_key(key@) && handle == self.index()[key@] && bytes@
                == self.frame_at(handle) {
                assert(decode_spec(bytes@, true) == Ok::<EntryView, DBError>(self.entries()[key@]));
                lemma_decode_unverified(bytes@);
            }
        }
        let entry = OwnedEntry::decode_from_bytes(bytes, verify_checksum)?;
        match entry.op_type {
            OpType::Put => Ok(entry.value),
            OpType::Del => Ok(None),
        }
    }

    /// The core of a database reopened from its manifest: the version that
    /// replaying the manifest gives, every segment it names held but not
    /// yet loaded (see `load_segment`), an empty index. Also returns the
    /// length of the manifest's intact prefix. A manifest whose version
    /// names the mutable segment as immutable too, or names id 0 or the
    /// largest id, is refused with `CorruptRecord`. Ids handed out later lie
    /// above every segment the version names.
    pub fn recover(dbpath: String, options: &Options, manifest: &[u8]) -> (r: DBResult<
        (BitcaskCore, usize),
    >)
        ensures
            match r {
                Ok((core, n)) => {
                    &&& core.wf()
                    &&& core.version() == recovered(FIRST_MANIFEST_ID, manifest@)
                    &&& n == parsed_end(manifest@, 0)
                    &&& core.entries() == Map::<Seq<u8>, EntryView>::empty()
                    &&& core.active_tail() == 0
                    &&& core.active_id() == if core.version().mut_id == INVALID_FILE_ID {
                        None
                    } else {
                        Some(core.version().mut_id)
                    }
                    &&& forall|id: FileId| #[trigger]
                        core.segments().contains_key(id) ==> core.segments()[id] == Seq::<u8>::empty()
                    &&& core.spec_bg_error() is None
                    &&& core.target() == options.target_file_size
                },
                Err(e) => {
                    let v = recovered(FIRST_MANIFEST_ID, manifest@);
                    &&& e == DBError::CorruptRecord
                    &&& (v.imm.contains(INVALID_FILE_ID) || v.imm.contains(u64::MAX) || v.mut_id
                        == u64::MAX || (v.mut_id != INVALID_FILE_ID && v.imm.contains(v.mut_id)))
                },
            },
    {
        let mut vs = VersionSet::new(dbpath);
        let n = vs.recovery(manifest);
        let mut_id = vs.current().mut_id;
        let imm = &vs.current().imm_ids;
        let mut frozen: Vec<FileId> = Vec::new();
        let mut max_seen: FileId = mut_id;
        if mut_id == u64::MAX {
            return Err(DBError::CorruptRecord);
        }
        let mut i: usize = 0;
        while i < imm.len()
            invariant
                i <= imm@.len(),
                frozen@ == imm@.subrange(0, i as int),
                vs.current_view() == recovered(FIRST_MANIFEST_ID, manifest@),
                imm@.to_set() == vs.current_view().imm,
                mut_id == vs.current_view().mut_id,
                forall|k: int| 0 <= k < i ==> imm@[k] != INVALID_FILE_ID && imm@[k] != u64::MAX,
                forall|k: int| 0 <= k < i ==> imm@[k] <= max_seen,
                mut_id <= max_seen,
                max_seen < u64::MAX,
                forall|k: int| 0 <= k < i ==> mut_id == INVALID_FILE_ID || imm@[k] != mut_id,
            decreases imm@.len() - i,
        {
            if imm[i] == INVALID_FILE_ID || imm[i] == u64::MAX || (mut_id != INVALID_FILE_ID && imm[i]
                == mut_id) {
                proof {
                    assert(imm@.contains(imm@[i as int]));
                }
                return Err(DBError::CorruptRecord);
            }
            frozen.push(imm[i]);
            if imm[i] > max_seen {
                max_seen = imm[i];
            }
            proof {
                assert(imm@.subrange(0, i + 1) =~= imm@.subrange(0, i as int).push(imm@[i as int]));
            }
            i = i + 1;
        }
        assert(imm@.subrange(0, i as int) =~= imm@);
        vs.reserve_id(max_seen);
        let active_file = if mut_id == INVALID_FILE_ID {
            None
        } else {
            Some(LogFile::new(mut_id))
        };
        let ghost held = Map::new(
            |id: FileId| (mut_id != INVALID_FILE_ID && id == mut_id) || frozen@.contains(id),
            |id: FileId| Seq::<u8>::empty(),
        );
        let core = BitcaskCore {
            active_file,
            freeze_files: frozen,
            mem_index: MemIndex::new(),
            version_set: vs,
            bg_error: None,
            target_file_size: options.target_file_size,
            segments: Ghost(held),
            latest: Ghost(Map::empty()),
        };
        proof {
            assert(core.index().dom() =~= core.entries().dom());
            if mut_id != INVALID_FILE_ID {
                assert(!core.freeze_files@.contains(mut_id));
            }
        }
        Ok((core, n))
    }

    /// Loads the segment `id` from `bytes`, what its file holds: each
    /// intact frame, in order, becomes the latest entry of its key, as if
    /// written again. Scanning stops where no intact frame starts (the torn
    /// tail of an interrupted append); the model of the segment, and for the
    /// mutable segment the tail, end there. Returns that length. Segments
    /// are loaded oldest first, so that later writes win.
    pub fn load_segment(&mut self, id: FileId, bytes: &[u8]) -> (r: u64)
        requires
            old(self).wf(),
            old(self).segments().contains_key(id),
            old(self).segments()[id] == Seq::<u8>::empty(),
            bytes@.len() <= u64::MAX,
        ensures
            final(self).wf(),
            r == scan_end(bytes@, 0),
            final(self).entries() == apply_ops(old(self).entries(), scan_frames(bytes@, 0)),
            final(self).segments() == old(self).segments().insert(id, bytes@.subrange(0, r as int)),
            final(self).version() == old(self).version(),
            final(self).active_id() == old(self).active_id(),
            final(self).frozen() == old(self).frozen(),
            final(self).active_id() == Some(id) ==> final(self).active_tail() == r,
            final(self).active_id() != Some(id) ==> final(self).active_tail() == old(self).active_tail(),
            final(self).next_id() == old(self).next_id(),
            final(self).spec_bg_error() == old(self).spec_bg_error(),
            final(self).target() == old(self).target(),
    {
        let ghost s = bytes@;
        let ghost old_latest = self.latest@;
        let ghost all = scan_frames(s, 0);
        let is_active = match &self.active_file {
            Some(f) => f.get_file_id() == id,
            None => false,
        };
        let mut pos: usize = 0;
        let ghost mut done: Seq<EntryView> = Seq::empty();
        proof {
            assert(s.subrange(0, 0) =~= Seq::<u8>::empty());
            assert(self.segments@.insert(id, s.subrange(0, 0)) =~= self.segments@);
        }
        loop
            invariant
                s == bytes@,
                s.len() <= u64::MAX,
                pos <= s.len(),
                self.wf(),
                is_active == (self.active_id() == Some(id)),
                self.segments@ == old(self).segments@.insert(id, s.subrange(0, pos as int)),
                all == scan_frames(s, 0),
                all == done + scan_frames(s, pos as int),
                scan_end(s, 0) == scan_end(s, pos as int),
                self.latest@ == apply_ops(old_latest, done),
                self.version() == old(self).version(),
                self.freeze_files@ == old(self).freeze_files@,
                self.active_id() == old(self).active_id(),
                !is_active ==> self.active_tail() == old(self).active_tail(),
                self.next_id() == old(self).next_id(),
                self.target() == old(self).target(),
                self.bg_error == old(self).bg_error,
            ensures
                done == all,
                scan_end(s, pos as int) == pos,
                self.wf(),
                is_active == (self.active_id() == Some(id)),
                self.segments@ == old(self).segments@.insert(id, s.subrange(0, pos as int)),
                self.latest@ == apply_ops(old_latest, done),
                scan_end(s, 0) == scan_end(s, pos as int),
                self.version() == old(self).version(),
                self.freeze_files@ == old(self).freeze_files@,
                self.active_id() == old(self).active_id(),
                !is_active ==> self.active_tail() == old(self).active_tail(),
                self.next_id() == old(self).next_id(),
                self.target() == old(self).target(),
                self.bg_error == old(self).bg_error,
            decreases s.len() - pos,
        {
            if bytes.len() - pos < HEADER_SIZE {
                proof {
                    assert(frame_entry(s, pos as int) is None);
                    assert(scan_frames(s, pos as int) =~= Seq::<EntryView>::empty());
                    assert(done =~= all);
                }
                break;
            }
            let k = read_u32(bytes, pos + 12) as u64;
            let v = read_u32(bytes, pos + 16) as u64;
            let total = k + v + 21;
            if total > (bytes.len() - pos) as u64 {
                proof {
                    assert(frame_entry(s, pos as int) is None);
                    assert(scan_frames(s, pos as int) =~= Seq::<EntryView>::empty());
                    assert(done =~= all);
                }
                break;
            }
            let end = pos + total as usize;
            assert(end == frame_end(s, pos as int));
            let frame = copy_range(bytes, pos, end);
            let e = match OwnedEntry::decode_from_bytes(frame.as_slice(), true) {
                Ok(e) => e,
                Err(_) => {
                    proof {
                        assert(frame_entry(s, pos as int) is None);
                        assert(scan_frames(s, pos as int) =~= Seq::<EntryView>::empty());
                        assert(done =~= all);
                    }
                    break;
                },
            };
            let ghost ev = e@;
            let h = EntryHandle { file_id: id, offset: pos as u64, length: total };
            proof {
                lemma_decoded_ok(frame@, true);
                assert(frame_entry(s, pos as int) == Some(ev));
                assert(scan_frames(s, pos as int) == seq![ev] + scan_frames(s, end as int));
                assert(all =~= done.push(ev) + scan_frames(s, end as int));
            }
            proof {
                assert(s.subrange(0, end as int).subrange(0, pos as int) =~= s.subrange(0, pos as int));
                assert(s.subrange(0, end as int).subrange(pos as int, end as int) =~= frame@);
            }
            self.install_frame(id, is_active, h, e.key.as_slice(), Ghost(ev), Ghost(s.subrange(0, end as int)));
            proof {
                assert(self.segments@ =~= old(self).segments@.insert(id, s.subrange(0, end as int)));
                assert(done.push(ev).drop_last() =~= done);
                done = done.push(ev);
            }
            pos = end;
        }
        proof {
            assert(scan_end(s, 0) == pos);
        }
        pos as u64
    }

    /// Makes the frame that ends `new_seg` the latest entry of its key.
    fn install_frame(
        &mut self,
        id: FileId,
        is_active: bool,
        h: EntryHandle,
        key: &[u8],
        ev: Ghost<EntryView>,
        new_seg: Ghost<Seq<u8>>,
    )
        requires
            old(self).wf(),
            old(self).segments().contains_key(id),
            is_active == (old(self).active_id() == Some(id)),
            h.file_id == id,
            h.offset == old(self).segments()[id].len(),
            h.offset + h.length == new_seg@.len(),
            new_seg@.len() <= u64::MAX,
            new_seg@.subrange(0, h.offset as int) == old(self).segments()[id],
            decode_spec(new_seg@.subrange(h.offset as int, new_seg@.len() as int), true)
                == Ok::<EntryView, DBError>(ev@),
            batch_entry_ok(ev@),
            ev@.key == key@,
        ensures
            final(self).wf(),
            final(self).segments() == old(self).segments().insert(id, new_seg@),
            final(self).entries() == old(self).entries().insert(ev@.key, ev@),
            final(self).version() == old(self).version(),
            final(self).frozen() == old(self).frozen(),
            final(self).active_id() == old(self).active_id(),
            is_active ==> final(self).active_tail() == new_seg@.len(),
            !is_active ==> final(self).active_tail() == old(self).active_tail(),
            final(self).next_id() == old(self).next_id(),
            final(self).spec_bg_error() == old(self).spec_bg_error(),
            final(self).target() == old(self).target(),
    {
        let ghost before = self.segments@;
        self.segments = Ghost(self.segments@.insert(id, new_seg@));
        if is_active {
            match &mut self.active_file {
                Some(f) => f.advance(h.length),
                None => {},
            }
        }
        proof {
            assert forall|kk: Seq<u8>| #[trigger] self.index().contains_key(kk) implies {
                &&& self.handle_valid(self.index()[kk])
                &&& decode_spec(self.frame_at(self.index()[kk]), true)
                    == Ok::<EntryView, DBError>(self.entries()[kk])
            } by {
                let hh = self.index()[kk];
                assert(old(self).handle_valid(hh));
                if hh.file_id == id {
                    assert(self.frame_at(hh) =~= old(self).frame_at(hh));
                } else {
                    assert(self.frame_at(hh) == old(self).frame_at(hh));
                }
            }
            assert(self.frame_at(h) =~= new_seg@.subrange(h.offset as int, new_seg@.len() as int));
        }
        self.mem_index.upsert(key, h);
        self.latest = Ghost(self.latest@.insert(ev@.key, ev@));
        proof {
            assert(self.index().dom() =~= self.entries().dom());
        }
    }
}

} // verus!
