//! Versions and version edits: which segment is mutable, which are
//! immutable, and the deterministic fold that applies an edit to a version.
use vstd::prelude::*;

use crate::segment::{FileId, INVALID_FILE_ID};

verus! {

broadcast use vstd::seq_lib::group_seq_properties;

/// The mathematical value of a version.
pub ghost struct VersionView {
    pub mut_id: FileId,
    pub imm: Set<FileId>,
    pub manifest_id: FileId,
}

/// The mathematical value of a version edit.
pub ghost struct EditView {
    pub new_mut: Option<FileId>,
    pub mut_to_imm: Option<FileId>,
    pub compact_input_imm: Seq<FileId>,
    pub compact_output_imm: Seq<FileId>,
}

/// A snapshot of the segment set: the mutable segment (or `INVALID_FILE_ID`
/// when there is none yet), the immutable segments, and the manifest that
/// records the history.
#[derive(Debug, Clone)]
pub struct Version {
    pub mut_id: FileId,
    pub imm_ids: Vec<FileId>,
    pub manifest_id: FileId,
}

impl View for Version {
    type V = VersionView;

    open spec fn view(&self) -> VersionView {
        VersionView { mut_id: self.mut_id, imm: self.imm_ids@.to_set(), manifest_id: self.manifest_id }
    }
}

/// One transition between versions: a new mutable segment, the retirement
/// of the old one to the immutable set, and the segments that a compaction
/// consumed and produced (both empty when no compaction took place).
#[derive(Debug, Clone)]
pub struct VersionEdit {
    pub new_mut: Option<FileId>,
    pub mut_to_imm: Option<FileId>,
    pub compact_input_imm: Vec<FileId>,
    pub compact_output_imm: Vec<FileId>,
}

impl View for VersionEdit {
    type V = EditView;

    open spec fn view(&self) -> EditView {
        EditView {
            new_mut: self.new_mut,
            mut_to_imm: self.mut_to_imm,
            compact_input_imm: self.compact_input_imm@,
            compact_output_imm: self.compact_output_imm@,
        }
    }
}

/// The version before any edit: no mutable segment, no immutable ones.
pub open spec fn genesis(manifest_id: FileId) -> VersionView {
    VersionView { mut_id: INVALID_FILE_ID, imm: Set::empty(), manifest_id }
}

/// Applies an edit: the retired segment joins the immutable set, the
/// compaction's inputs leave it and its outputs join it, and the new
/// mutable segment, if any, takes over.
pub open spec fn apply_edit(v: VersionView, e: EditView) -> VersionView {
    let retired = match e.mut_to_imm {
        Some(id) => v.imm.insert(id),
        None => v.imm,
    };
    VersionView {
        mut_id: match e.new_mut {
            Some(id) => id,
            None => v.mut_id,
        },
        imm: retired.difference(e.compact_input_imm.to_set()).union(
            e.compact_output_imm.to_set(),
        ),
        manifest_id: v.manifest_id,
    }
}

/// Applies the edits in order, starting from `v`.
pub open spec fn replay(v: VersionView, edits: Seq<EditView>) -> VersionView
    decreases edits.len(),
{
    if edits.len() == 0 {
        v
    } else {
        replay(apply_edit(v, edits[0]), edits.drop_first())
    }
}

/// Replaying one more edit applies it to what the others made.
pub proof fn lemma_replay_push(v: VersionView, edits: Seq<EditView>, e: EditView)
    ensures
        replay(v, edits.push(e)) == apply_edit(replay(v, edits), e),
    decreases edits.len(),
{
    if edits.len() == 0 {
        assert(edits.push(e).drop_first() =~= Seq::<EditView>::empty());
        assert(edits.push(e)[0] == e);
        assert(replay(apply_edit(v, e), Seq::<EditView>::empty()) == apply_edit(v, e));
    } else {
        assert(edits.push(e).drop_first() =~= edits.drop_first().push(e));
        assert(edits.push(e)[0] == edits[0]);
        lemma_replay_push(apply_edit(v, edits[0]), edits.drop_first(), e);
    }
}

/// Whether `v` holds `id`.
pub(crate) fn contains_id(v: &Vec<FileId>, id: FileId) -> (r: bool)
    ensures
        r == v@.contains(id),
{
    let mut i: usize = 0;
    while i < v.len()
        invariant
            i <= v@.len(),
            forall|k: int| 0 <= k < i ==> v@[k] != id,
        decreases v@.len() - i,
    {
        if v[i] == id {
            return true;
        }
        i = i + 1;
    }
    false
}

impl VersionEdit {
    /// An edit that changes nothing.
    pub fn new() -> (r: VersionEdit)
        ensures
            r@ == (EditView {
                new_mut: None,
                mut_to_imm: None,
                compact_input_imm: Seq::empty(),
                compact_output_imm: Seq::empty(),
            }),
    {
        VersionEdit {
            new_mut: None,
            mut_to_imm: None,
            compact_input_imm: Vec::new(),
            compact_output_imm: Vec::new(),
        }
    }
}

impl Version {
    /// The version before any edit.
    pub fn genesis(manifest_id: FileId) -> (r: Version)
        ensures
            r@ == genesis(manifest_id),
    {
        let r = Version { mut_id: INVALID_FILE_ID, imm_ids: Vec::new(), manifest_id };
        assert(r@.imm =~= Set::empty());
        r
    }

    /// The version that `edit` makes of this one.
    pub fn apply(&self, edit: &VersionEdit) -> (r: Version)
        ensures
            r@ == apply_edit(self@, edit@),
    {
        let mut imm: Vec<FileId> = Vec::new();
        let ghost retired = match edit@.mut_to_imm {
            Some(id) => self@.imm.insert(id),
            None => self@.imm,
        };
        let ghost removed = edit@.compact_input_imm.to_set();
        // the kept immutable segments
        let mut i: usize = 0;
        assert(self.imm_ids@.subrange(0, 0).to_set() =~= Set::<FileId>::empty());
        assert(imm@.to_set() =~= Set::<FileId>::empty());
        while i < self.imm_ids.len()
            invariant
                i <= self.imm_ids@.len(),
                removed == edit@.compact_input_imm.to_set(),
                imm@.to_set() == self.imm_ids@.subrange(0, i as int).to_set().difference(removed),
            decreases self.imm_ids@.len() - i,
        {
            let id = self.imm_ids[i];
            let ghost before = imm@;
            let ghost seen = self.imm_ids@.subrange(0, i as int);
            proof {
                assert(self.imm_ids@.subrange(0, i + 1) =~= seen.push(id));
                seen.lemma_push_to_set_commute(id);
            }
            if !contains_id(&edit.compact_input_imm, id) {
                imm.push(id);
                proof {
                    before.lemma_push_to_set_commute(id);
                    assert(imm@.to_set() =~= seen.push(id).to_set().difference(removed));
                }
            } else {
                assert(imm@.to_set() =~= seen.push(id).to_set().difference(removed));
            }
            i = i + 1;
        }
        assert(self.imm_ids@.subrange(0, i as int) =~= self.imm_ids@);
        match edit.mut_to_imm {
            Some(id) => {
                if !contains_id(&edit.compact_input_imm, id) {
                    let ghost before = imm@;
                    imm.push(id);
                    proof { before.lemma_push_to_set_commute(id); }
                }
            },
            None => {},
        }
        assert(imm@.to_set() =~= retired.difference(removed));
        let ghost kept = imm@.to_set();
        let mut j: usize = 0;
        assert(edit.compact_output_imm@.subrange(0, 0).to_set() =~= Set::<FileId>::empty());
        while j < edit.compact_output_imm.len()
            invariant
                j <= edit.compact_output_imm@.len(),
                imm@.to_set() == kept.union(edit.compact_output_imm@.subrange(0, j as int).to_set()),
            decreases edit.compact_output_imm@.len() - j,
        {
            let id = edit.compact_output_imm[j];
            let ghost before = imm@;
            imm.push(id);
            proof {
                before.lemma_push_to_set_commute(id);
                assert(edit.compact_output_imm@.subrange(0, j + 1) =~= edit.compact_output_imm@.subrange(0, j as int).push(id));
                edit.compact_output_imm@.subrange(0, j as int).lemma_push_to_set_commute(id);
                assert(imm@.to_set() =~= kept.union(edit.compact_output_imm@.subrange(0, j + 1).to_set()));
            }
            j = j + 1;
        }
        assert(edit.compact_output_imm@.subrange(0, j as int) =~= edit.compact_output_imm@);
        let mut_id = match edit.new_mut {
            Some(id) => id,
            None => self.mut_id,
        };
        let r = Version { mut_id, imm_ids: imm, manifest_id: self.manifest_id };
        assert(r@.imm =~= apply_edit(self@, edit@).imm);
        r
    }
}

} // verus!
