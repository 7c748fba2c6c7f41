//! An ordered list of puts and deletes submitted as one unit.
use vstd::prelude::*;

use crate::codec::{copy_range, EntryView, OpType, OwnedEntry};

verus! {

/// The entry a batch holds for `put(key, value)`.
pub open spec fn put_entry(key: Seq<u8>, value: Seq<u8>) -> EntryView {
    EntryView { op_type: OpType::Put, key, value: Some(value), ts: Some(0) }
}

/// The entry a batch holds for `delete(key)`.
pub open spec fn delete_entry(key: Seq<u8>) -> EntryView {
    EntryView { op_type: OpType::Del, key, value: None, ts: Some(0) }
}

/// An entry that a batch can hold: it can be framed, and it carries a
/// timestamp, so that decoding its frame gives it back.
pub open spec fn batch_entry_ok(e: EntryView) -> bool {
    e.encodable() && e.ts.is_some()
}

/// Pending operations, applied in order.
pub struct WriteBatch {
    rep: Vec<OwnedEntry>,
}

impl WriteBatch {
    /// The operations, in order.
    pub closed spec fn ops(&self) -> Seq<EntryView> {
        self.rep@.map_values(|e: OwnedEntry| e@)
    }

    pub closed spec fn wf(&self) -> bool {
        forall|i: int| 0 <= i < self.rep@.len() ==> batch_entry_ok(#[trigger] self.rep@[i]@)
    }

    /// An empty batch.
    pub fn new() -> (r: WriteBatch)
        ensures
            r.wf(),
            r.ops() == Seq::<EntryView>::empty(),
    {
        let r = WriteBatch { rep: Vec::new() };
        assert(r.ops() =~= Seq::<EntryView>::empty());
        r
    }

    /// Appends a put of `value` under `key`; both must fit the frame's
    /// 32-bit length fields.
    pub fn put(&mut self, key: &[u8], value: &[u8])
        requires
            old(self).wf(),
            key@.len() <= u32::MAX,
            value@.len() <= u32::MAX,
        ensures
            final(self).wf(),
            final(self).ops() == old(self).ops().push(put_entry(key@, value@)),
    {
        let k = copy_range(key, 0, key.len());
        let v = copy_range(value, 0, value.len());
        assert(key@.subrange(0, key@.len() as int) =~= key@);
        assert(value@.subrange(0, value@.len() as int) =~= value@);
        self.rep.push(OwnedEntry { op_type: OpType::Put, key: k, value: Some(v), ts: Some(0) });
        assert(final(self).ops() =~= old(self).ops().push(put_entry(key@, value@)));
    }

    /// Appends a delete of `key`, which must fit the frame's 32-bit length
    /// field.
    pub fn delete(&mut self, key: &[u8])
        requires
            old(self).wf(),
            key@.len() <= u32::MAX,
        ensures
            final(self).wf(),
            final(self).ops() == old(self).ops().push(delete_entry(key@)),
    {
        let k = copy_range(key, 0, key.len());
        assert(key@.subrange(0, key@.len() as int) =~= key@);
        self.rep.push(OwnedEntry { op_type: OpType::Del, key: k, value: None, ts: Some(0) });
        assert(final(self).ops() =~= old(self).ops().push(delete_entry(key@)));
    }

    /// Every operation of a well-formed batch can be framed and decoded back.
    pub proof fn lemma_wf_ops(&self)
        requires
            self.wf(),
        ensures
            forall|i: int| 0 <= i < self.ops().len() ==> batch_entry_ok(#[trigger] self.ops()[i]),
    {
        assert forall|i: int| 0 <= i < self.ops().len() implies batch_entry_ok(#[trigger] self.ops()[i]) by {
            assert(self.ops()[i] == self.rep@[i]@);
        }
    }

    /// The number of operations.
    pub fn len(&self) -> (r: usize)
        ensures
            r == self.ops().len(),
    {
        self.rep.len()
    }

    /// The `i`-th operation.
    pub fn entry(&self, i: usize) -> (r: &OwnedEntry)
        requires
            i < self.ops().len(),
        ensures
            r@ == self.ops()[i as int],
            self.wf() ==> batch_entry_ok(r@),
    {
        &self.rep[i]
    }
}

} // verus!
