//! The version set: the installed version, segment-id allocation, and the
//! apply-after-durable-append discipline of the manifest.
use vstd::prelude::*;

use crate::errors::DBResult;
use crate::filename::{filename_spec, join_path, FileType};
use crate::manifest::{decode_record, parse_log, parse_record, parsed_end, recovered};
use crate::segment::{FileId, INVALID_FILE_ID};
use crate::version::{apply_edit, genesis, replay, EditView, Version, VersionEdit, VersionView};

verus! {

/// The id of the manifest that a new database starts with.
pub const FIRST_MANIFEST_ID: FileId = 1;

/// The ids that an edit names as live segments.
pub open spec fn edit_ids_below(e: EditView, bound: FileId) -> bool {
    &&& (e.new_mut matches Some(id) ==> id < bound)
    &&& (e.mut_to_imm matches Some(id) ==> id < bound)
    &&& forall|i: int| 0 <= i < e.compact_output_imm.len() ==> #[trigger] e.compact_output_imm[i] < bound
}

/// The smallest id above every id that an edit names as live, at least
/// `bound`; ids saturate at `u64::MAX`.
pub open spec fn bump(bound: FileId, id: FileId) -> FileId {
    if id < bound {
        bound
    } else if id == u64::MAX {
        u64::MAX
    } else {
        (id + 1) as FileId
    }
}

/// Tracks the current version and allocates segment ids.
#[derive(Debug)]
pub struct VersionSet {
    dbpath: String,
    next_logfile_id: FileId,
    manifest_file_id: FileId,
    current: Version,
}

impl VersionSet {
    pub closed spec fn next_id(&self) -> FileId {
        self.next_logfile_id
    }

    pub closed spec fn manifest_id(&self) -> FileId {
        self.manifest_file_id
    }

    pub closed spec fn current_view(&self) -> VersionView {
        self.current@
    }

    pub closed spec fn path(&self) -> Seq<char> {
        self.dbpath@
    }

    /// The version set of a new database in `dbpath`: the first manifest, no
    /// segments, and ids handed out from 1 on.
    pub fn new(dbpath: String) -> (r: VersionSet)
        ensures
            r.path() == dbpath@,
            r.manifest_id() == FIRST_MANIFEST_ID,
            r.next_id() == INVALID_FILE_ID + 1,
            r.current_view() == genesis(FIRST_MANIFEST_ID),
    {
        VersionSet {
            dbpath,
            next_logfile_id: INVALID_FILE_ID + 1,
            manifest_file_id: FIRST_MANIFEST_ID,
            current: Version::genesis(FIRST_MANIFEST_ID),
        }
    }

    /// Hands out a fresh segment id; ids only grow, so none is reused.
    pub fn new_logfile_id(&mut self) -> (r: FileId)
        requires
            old(self).next_id() < u64::MAX,
        ensures
            r == old(self).next_id(),
            r != INVALID_FILE_ID || old(self).next_id() == INVALID_FILE_ID,
            final(self).next_id() == old(self).next_id() + 1,
            final(self).current_view() == old(self).current_view(),
            final(self).manifest_id() == old(self).manifest_id(),
            final(self).path() == old(self).path(),
    {
        let last = self.next_logfile_id;
        self.next_logfile_id = self.next_logfile_id + 1;
        last
    }

    /// Makes sure that ids handed out from now on lie above `id`, unless
    /// `id` is `u64::MAX`.
    pub fn reserve_id(&mut self, id: FileId)
        ensures
            final(self).next_id() == bump(old(self).next_id(), id),
            final(self).current_view() == old(self).current_view(),
            final(self).manifest_id() == old(self).manifest_id(),
            final(self).path() == old(self).path(),
    {
        self.next_logfile_id = bump_id(self.next_logfile_id, id);
    }

    /// The installed version.
    pub fn current(&self) -> (r: &Version)
        ensures
            r@ == self.current_view(),
    {
        &self.current
    }

    /// The id of the next segment that `new_logfile_id` hands out.
    pub fn next_logfile_id(&self) -> (r: FileId)
        ensures
            r == self.next_id(),
    {
        self.next_logfile_id
    }

    /// The path of the active manifest.
    pub fn manifest_path(&self) -> (r: String)
        ensures
            r@ == join_path(self.path(), filename_spec(FileType::Manifest, self.manifest_id() as nat)),
    {
        FileType::Manifest.get_full_filepath(self.dbpath.as_str(), self.manifest_file_id)
    }

    /// What the pointer file holds: the name of the active manifest.
    pub fn current_file_contents(&self) -> (r: String)
        ensures
            r@ == filename_spec(FileType::Manifest, self.manifest_id() as nat),
    {
        FileType::Manifest.get_filename(self.manifest_file_id)
    }

    /// Installs `edit` once the append of its record to the manifest has
    /// been made durable; `appended` is the outcome of that append and its
    /// sync. On failure the version stays as it was and the error is
    /// returned.
    pub fn log_and_apply(&mut self, edit: &VersionEdit, appended: DBResult<()>) -> (r: DBResult<()>)
        ensures
            r == appended,
            r is Ok ==> final(self).current_view() == apply_edit(old(self).current_view(), edit@),
            r is Err ==> final(self).current_view() == old(self).current_view(),
            final(self).next_id() == old(self).next_id(),
            final(self).manifest_id() == old(self).manifest_id(),
            final(self).path() == old(self).path(),
    {
        if appended.is_ok() {
            self.current = self.current.apply(edit);
        }
        appended
    }

    /// Rebuilds the current version by replaying the manifest's records in
    /// order from the empty version, stopping where no intact record starts
    /// (the torn tail of an interrupted append). Ids handed out later lie
    /// above every id the replayed edits name. Returns the length of the
    /// intact prefix, where the next record is to be appended.
    pub fn recovery(&mut self, manifest: &[u8]) -> (r: usize)
        ensures
            final(self).current_view() == recovered(old(self).manifest_id(), manifest@),
            r == parsed_end(manifest@, 0),
            final(self).next_id() >= old(self).next_id(),
            final(self).next_id() < u64::MAX ==> forall|i: int|
                0 <= i < parse_log(manifest@, 0).len() ==> edit_ids_below(
                    #[trigger] parse_log(manifest@, 0)[i],
                    final(self).next_id(),
                ),
            final(self).manifest_id() == old(self).manifest_id(),
            final(self).path() == old(self).path(),
    {
        let ghost s = manifest@;
        let ghost all = parse_log(s, 0);
        let mut cur = Version::genesis(self.manifest_file_id);
        let mut next = self.next_logfile_id;
        let mut pos: usize = 0;
        let ghost mut done: Seq<EditView> = Seq::empty();
        loop
            invariant
                pos <= s.len(),
                s == manifest@,
                all == parse_log(s, 0),
                all == done + parse_log(s, pos as int),
                replay(genesis(self.manifest_file_id), all) == replay(cur@, parse_log(s, pos as int)),
                parsed_end(s, 0) == parsed_end(s, pos as int),
                next >= self.next_logfile_id,
                next < u64::MAX ==> forall|i: int| 0 <= i < done.len() ==> edit_ids_below(#[trigger] done[i], next),
                cur.manifest_id == self.manifest_file_id,
            ensures
                done == all,
                parse_log(s, pos as int) == Seq::<EditView>::empty(),
                parsed_end(s, pos as int) == pos,
                replay(genesis(self.manifest_file_id), all) == replay(cur@, parse_log(s, pos as int)),
                parsed_end(s, 0) == parsed_end(s, pos as int),
                next >= self.next_logfile_id,
                next < u64::MAX ==> forall|i: int| 0 <= i < done.len() ==> edit_ids_below(#[trigger] done[i], next),
            decreases s.len() - pos,
        {
            match decode_record(manifest, pos) {
                Some((edit, p)) => {
                    if p <= pos || p > manifest.len() {
                        // cannot happen: a record is never empty
                        proof {
                            reveal(parse_record);
                            assert(false);
                        }
                        break;
                    }
                    let ghost e = edit@;
                    proof {
                        assert(parse_log(s, pos as int) == seq![e] + parse_log(s, p as int));
                        assert((seq![e] + parse_log(s, p as int))[0] == e);
                        assert((seq![e] + parse_log(s, p as int)).drop_first() =~= parse_log(s, p as int));
                    }
                    let ghost before = next;
                    match edit.new_mut {
                        Some(id) => { next = bump_id(next, id); },
                        None => {},
                    }
                    match edit.mut_to_imm {
                        Some(id) => { next = bump_id(next, id); },
                        None => {},
                    }
                    let mut j: usize = 0;
                    while j < edit.compact_output_imm.len()
                        invariant
                            j <= edit.compact_output_imm@.len(),
                            next >= before,
                            next < u64::MAX ==> forall|k: int| 0 <= k < j ==> #[trigger] edit.compact_output_imm@[k] < next,
                            next < u64::MAX ==> (edit@.new_mut matches Some(id) ==> id < next),
                            next < u64::MAX ==> (edit@.mut_to_imm matches Some(id) ==> id < next),
                        decreases edit.compact_output_imm@.len() - j,
                    {
                        next = bump_id(next, edit.compact_output_imm[j]);
                        j = j + 1;
                    }
                    proof {
                        if next < u64::MAX {
                            assert forall|i: int| 0 <= i < done.push(e).len() implies edit_ids_below(#[trigger] done.push(e)[i], next) by {
                                if i < done.len() {
                                    assert(done.push(e)[i] == done[i]);
                                    assert(before < u64::MAX);
                                    assert(edit_ids_below(done[i], before));
                                }
                            }
                        }
                        assert(all =~= done.push(e) + parse_log(s, p as int));
                        done = done.push(e);
                    }
                    cur = cur.apply(&edit);
                    pos = p;
                },
                None => {
                    proof {
                        assert(parse_log(s, pos as int) =~= Seq::<EditView>::empty());
                        assert(done =~= all);
                    }
                    break;
                },
            }
        }
        assert(replay(cur@, Seq::<EditView>::empty()) == cur@);
        self.current = cur;
        self.next_logfile_id = next;
        pos
    }
}

fn bump_id(bound: FileId, id: FileId) -> (r: FileId)
    ensures
        r == bump(bound, id),
        r >= bound,
        r < u64::MAX ==> id < r,
{
    if id < bound {
        bound
    } else if id == u64::MAX {
        u64::MAX
    } else {
        id + 1
    }
}

} // verus!
