//! The in-memory index: for each key, the handle of its latest entry.
use vstd::prelude::*;

use crate::codec::copy_range;
use crate::segment::EntryHandle;

verus! {

/// Compares two byte strings.
pub fn bytes_eq(a: &[u8], b: &[u8]) -> (r: bool)
    ensures
        r == (a@ == b@),
{
    if a.len() != b.len() {
        return false;
    }
    let mut i: usize = 0;
    while i < a.len()
        invariant
            i <= a@.len(),
            a@.len() == b@.len(),
            forall|k: int| 0 <= k < i ==> a@[k] == b@[k],
        decreases a@.len() - i,
    {
        if a[i] != b[i] {
            return false;
        }
        i = i + 1;
    }
    assert(a@ =~= b@);
    true
}

/// Byte-lexicographic order: `a` sorts before `b`.
pub open spec fn lex_lt(a: Seq<u8>, b: Seq<u8>) -> bool
    decreases a.len(),
{
    if a.len() == 0 {
        b.len() > 0
    } else if b.len() == 0 {
        false
    } else if a[0] != b[0] {
        a[0] < b[0]
    } else {
        lex_lt(a.drop_first(), b.drop_first())
    }
}

pub proof fn lemma_lex_irreflexive(a: Seq<u8>)
    ensures
        !lex_lt(a, a),
    decreases a.len(),
{
    if a.len() > 0 {
        lemma_lex_irreflexive(a.drop_first());
    }
}

pub proof fn lemma_lex_total(a: Seq<u8>, b: Seq<u8>)
    requires
        a != b,
    ensures
        lex_lt(a, b) || lex_lt(b, a),
    decreases a.len(),
{
    if a.len() > 0 && b.len() > 0 && a[0] == b[0] {
        if a.drop_first() == b.drop_first() {
            assert(a =~= seq![a[0]] + a.drop_first());
            assert(b =~= seq![b[0]] + b.drop_first());
        }
        lemma_lex_total(a.drop_first(), b.drop_first());
    } else if a.len() == 0 && b.len() == 0 {
        assert(a =~= b);
    }
}

pub proof fn lemma_lex_transitive(a: Seq<u8>, b: Seq<u8>, c: Seq<u8>)
    requires
        lex_lt(a, b),
        lex_lt(b, c),
    ensures
        lex_lt(a, c),
    decreases a.len(),
{
    if a.len() > 0 && b.len() > 0 && c.len() > 0 && a[0] == b[0] && b[0] == c[0] {
        lemma_lex_transitive(a.drop_first(), b.drop_first(), c.drop_first());
    }
}

/// Compares two byte strings in byte-lexicographic order.
pub fn bytes_lt(a: &[u8], b: &[u8]) -> (r: bool)
    ensures
        r == lex_lt(a@, b@),
{
    let mut i: usize = 0;
    assert(a@.subrange(0, a@.len() as int) =~= a@);
    assert(b@.subrange(0, b@.len() as int) =~= b@);
    while i < a.len() && i < b.len() && a[i] == b[i]
        invariant
            i <= a@.len(),
            i <= b@.len(),
            lex_lt(a@, b@) == lex_lt(a@.subrange(i as int, a@.len() as int), b@.subrange(i as int, b@.len() as int)),
        decreases a@.len() - i,
    {
        proof {
            let sa = a@.subrange(i as int, a@.len() as int);
            let sb = b@.subrange(i as int, b@.len() as int);
            assert(sa.drop_first() =~= a@.subrange(i + 1, a@.len() as int));
            assert(sb.drop_first() =~= b@.subrange(i + 1, b@.len() as int));
        }
        i = i + 1;
    }
    proof {
        let sa = a@.subrange(i as int, a@.len() as int);
        let sb = b@.subrange(i as int, b@.len() as int);
        if i < a@.len() && i < b@.len() {
            assert(sa[0] == a@[i as int]);
            assert(sb[0] == b@[i as int]);
        }
    }
    if i == a.len() {
        i < b.len()
    } else if i == b.len() {
        false
    } else {
        a[i] < b[i]
    }
}

/// Maps keys to entry handles; each key appears once, and the keys are
/// kept in byte-lexicographic order.
pub struct MemIndex {
    keys: Vec<Vec<u8>>,
    handles: Vec<EntryHandle>,
    map: Ghost<Map<Seq<u8>, EntryHandle>>,
}

impl MemIndex {
    /// The mapping the index holds.
    pub closed spec fn view(&self) -> Map<Seq<u8>, EntryHandle> {
        self.map@
    }

    /// The parallel key and handle vectors agree with the mapping, and no
    /// key appears twice.
    pub closed spec fn wf(&self) -> bool {
        &&& self.keys@.len() == self.handles@.len()
        &&& forall|i: int|
            0 <= i < self.keys@.len() ==> #[trigger] self.map@.contains_key(self.keys@[i]@)
                && self.map@[self.keys@[i]@] == self.handles@[i]
        &&& forall|k: Seq<u8>|
            #[trigger] self.map@.contains_key(k) ==> exists|i: int|
                0 <= i < self.keys@.len() && #[trigger] self.keys@[i]@ == k
        &&& forall|i: int, j: int|
            0 <= i < j < self.keys@.len() ==> #[trigger] self.keys@[i]@ != #[trigger] self.keys@[j]@
        &&& forall|i: int, j: int|
            0 <= i < j < self.keys@.len() ==> lex_lt(#[trigger] self.keys@[i]@, #[trigger] self.keys@[j]@)
    }

    /// The indexed keys, in byte-lexicographic order.
    pub closed spec fn sorted_keys(&self) -> Seq<Seq<u8>> {
        self.keys@.map_values(|k: Vec<u8>| k@)
    }

    /// The keys of a well-formed index are exactly its mapping's keys, in
    /// strictly ascending byte-lexicographic order.
    pub proof fn lemma_ordered(&self)
        requires
            self.wf(),
        ensures
            forall|i: int, j: int|
                0 <= i < j < self.sorted_keys().len() ==> lex_lt(
                    #[trigger] self.sorted_keys()[i],
                    #[trigger] self.sorted_keys()[j],
                ),
            forall|k: Seq<u8>| self.view().contains_key(k) <==> #[trigger] self.sorted_keys().contains(k),
    {
        assert forall|i: int, j: int| 0 <= i < j < self.sorted_keys().len() implies lex_lt(
            #[trigger] self.sorted_keys()[i],
            #[trigger] self.sorted_keys()[j],
        ) by {
            assert(self.sorted_keys()[i] == self.keys@[i]@);
            assert(self.sorted_keys()[j] == self.keys@[j]@);
        }
        assert forall|k: Seq<u8>| self.view().contains_key(k) <==> #[trigger] self.sorted_keys().contains(k) by {
            if self.view().contains_key(k) {
                let j = choose|j: int| 0 <= j < self.keys@.len() && #[trigger] self.keys@[j]@ == k;
                assert(self.sorted_keys()[j] == k);
            }
            if self.sorted_keys().contains(k) {
                let j = choose|j: int| 0 <= j < self.sorted_keys().len() && self.sorted_keys()[j] == k;
                assert(self.keys@[j]@ == k);
            }
        }
    }

    /// An empty index.
    pub fn new() -> (r: MemIndex)
        ensures
            r.wf(),
            r.view() == Map::<Seq<u8>, EntryHandle>::empty(),
    {
        MemIndex { keys: Vec::new(), handles: Vec::new(), map: Ghost(Map::empty()) }
    }

    /// Where `key` is, or where it would go: the first position whose key
    /// does not sort before `key`.
    fn position(&self, key: &[u8]) -> (r: (usize, bool))
        requires
            self.wf(),
        ensures
            r.0 <= self.keys@.len(),
            forall|k: int| 0 <= k < r.0 ==> lex_lt(#[trigger] self.keys@[k]@, key@),
            r.1 ==> r.0 < self.keys@.len() && self.keys@[r.0 as int]@ == key@,
            !r.1 ==> !self.view().contains_key(key@),
            !r.1 ==> forall|k: int| r.0 <= k < self.keys@.len() ==> lex_lt(key@, #[trigger] self.keys@[k]@),
    {
        let mut i: usize = 0;
        while i < self.keys.len() && bytes_lt(self.keys[i].as_slice(), key)
            invariant
                i <= self.keys@.len(),
                forall|k: int| 0 <= k < i ==> lex_lt(#[trigger] self.keys@[k]@, key@),
            decreases self.keys@.len() - i,
        {
            i = i + 1;
        }
        let found = i < self.keys.len() && bytes_eq(self.keys[i].as_slice(), key);
        proof {
            if !found {
                if i < self.keys@.len() {
                    lemma_lex_total(self.keys@[i as int]@, key@);
                }
                assert forall|k: int| i <= k < self.keys@.len() implies lex_lt(key@, #[trigger] self.keys@[k]@) by {
                    if k > i {
                        lemma_lex_transitive(key@, self.keys@[i as int]@, self.keys@[k]@);
                    }
                }
                if self.view().contains_key(key@) {
                    let j = choose|j: int| 0 <= j < self.keys@.len() && #[trigger] self.keys@[j]@ == key@;
                    if j < i {
                        lemma_lex_irreflexive(key@);
                    } else {
                        lemma_lex_irreflexive(key@);
                    }
                }
            }
        }
        (i, found)
    }

    fn find(&self, key: &[u8]) -> (r: Option<usize>)
        requires
            self.wf(),
        ensures
            match r {
                Some(i) => i < self.keys@.len() && self.keys@[i as int]@ == key@,
                None => !self.view().contains_key(key@),
            },
    {
        let (i, found) = self.position(key);
        if found {
            Some(i)
        } else {
            None
        }
    }

    /// The handle of `key`'s latest entry, if the key is indexed.
    pub fn lookup(&self, key: &[u8]) -> (r: Option<EntryHandle>)
        requires
            self.wf(),
        ensures
            r == (if self.view().contains_key(key@) {
                Some(self.view()[key@])
            } else {
                None
            }),
    {
        match self.find(key) {
            Some(i) => Some(self.handles[i]),
            None => None,
        }
    }

    /// Points `key` at `handle`, replacing any earlier handle.
    pub fn upsert(&mut self, key: &[u8], handle: EntryHandle)
        requires
            old(self).wf(),
        ensures
            final(self).wf(),
            final(self).view() == old(self).view().insert(key@, handle),
    {
        let ghost old_map = self.map@;
        let (p, found) = self.position(key);
        match if found { Some(p) } else { None } {
            Some(i) => {
                self.handles.set(i, handle);
                self.map = Ghost(old_map.insert(key@, handle));
                assert forall|k: Seq<u8>| #[trigger] self.map@.contains_key(k) implies exists|j: int|
                    0 <= j < self.keys@.len() && #[trigger] self.keys@[j]@ == k by {
                    if k != key@ {
                        assert(old_map.contains_key(k));
                    }
                }
            },
            None => {
                let owned = copy_range(key, 0, key.len());
                assert(key@.subrange(0, key@.len() as int) =~= key@);
                let ghost old_keys = self.keys@;
                let ghost old_handles = self.handles@;
                self.keys.insert(p, owned);
                self.handles.insert(p, handle);
                self.map = Ghost(old_map.insert(key@, handle));
                // old position j now sits at j or j + 1
                assert forall|j: int| 0 <= j < self.keys@.len() implies #[trigger] self.map@.contains_key(self.keys@[j]@)
                    && self.map@[self.keys@[j]@] == self.handles@[j] by {
                    lemma_lex_irreflexive(key@);
                    if j < p {
                        assert(self.keys@[j] == old_keys[j]);
                        assert(self.handles@[j] == old_handles[j]);
                        assert(old_map.contains_key(old_keys[j]@));
                        assert(lex_lt(old_keys[j]@, key@));
                    } else if j > p {
                        assert(self.keys@[j] == old_keys[j - 1]);
                        assert(self.handles@[j] == old_handles[j - 1]);
                        assert(old_map.contains_key(old_keys[j - 1]@));
                        assert(lex_lt(key@, old_keys[j - 1]@));
                    } else {
                        assert(self.keys@[j]@ == key@);
                        assert(self.handles@[j] == handle);
                    }
                }
                assert forall|k: Seq<u8>| #[trigger] self.map@.contains_key(k) implies exists|j: int|
                    0 <= j < self.keys@.len() && #[trigger] self.keys@[j]@ == k by {
                    if k != key@ {
                        assert(old_map.contains_key(k));
                        let j = choose|j: int| 0 <= j < old_keys.len() && #[trigger] old_keys[j]@ == k;
                        if j < p {
                            assert(self.keys@[j]@ == k);
                        } else {
                            assert(self.keys@[j + 1]@ == k);
                        }
                    } else {
                        assert(self.keys@[p as int]@ == k);
                    }
                }
                assert forall|a: int, b: int| 0 <= a < b < self.keys@.len() implies lex_lt(#[trigger] self.keys@[a]@, #[trigger] self.keys@[b]@) by {
                    let oa = if a < p { a } else { a - 1 };
                    let ob = if b < p { b } else { b - 1 };
                    if a == p {
                        assert(self.keys@[b] == old_keys[ob]);
                    } else if b == p {
                        assert(self.keys@[a] == old_keys[oa]);
                    } else {
                        assert(self.keys@[a] == old_keys[oa]);
                        assert(self.keys@[b] == old_keys[ob]);
                    }
                }
                assert forall|a: int, b: int| 0 <= a < b < self.keys@.len() implies #[trigger] self.keys@[a]@ != #[trigger] self.keys@[b]@ by {
                    lemma_lex_irreflexive(self.keys@[a]@);
                }
            },
        }
    }

    /// Drops `key` from the index.
    pub fn remove(&mut self, key: &[u8])
        requires
            old(self).wf(),
        ensures
            final(self).wf(),
            final(self).view() == old(self).view().remove(key@),
    {
        let ghost old_map = self.map@;
        match self.find(key) {
            Some(i) => {
                let ghost old_keys = self.keys@;
                let ghost old_handles = self.handles@;
                self.keys.remove(i);
                self.handles.remove(i);
                self.map = Ghost(old_map.remove(key@));
                assert forall|j: int| 0 <= j < self.keys@.len() implies #[trigger] self.map@.contains_key(self.keys@[j]@)
                    && self.map@[self.keys@[j]@] == self.handles@[j] by {
                    if j < i {
                        assert(self.keys@[j] == old_keys[j]);
                        assert(self.handles@[j] == old_handles[j]);
                        assert(old_map.contains_key(old_keys[j]@));
                        assert(old_keys[j]@ != old_keys[i as int]@);
                    } else {
                        assert(self.keys@[j] == old_keys[j + 1]);
                        assert(self.handles@[j] == old_handles[j + 1]);
                        assert(old_map.contains_key(old_keys[j + 1]@));
                        assert(old_keys[i as int]@ != old_keys[j + 1]@);
                    }
                }
                assert forall|k: Seq<u8>| #[trigger] self.map@.contains_key(k) implies exists|j: int|
                    0 <= j < self.keys@.len() && #[trigger] self.keys@[j]@ == k by {
                    assert(old_map.contains_key(k));
                    let j = choose|j: int| 0 <= j < old_keys.len() && #[trigger] old_keys[j]@ == k;
                    assert(j != i);
                    if j < i {
                        assert(self.keys@[j]@ == k);
                    } else {
                        assert(self.keys@[j - 1]@ == k);
                    }
                }
                assert forall|a: int, b: int| 0 <= a < b < self.keys@.len() implies #[trigger] self.keys@[a]@
                    != #[trigger] self.keys@[b]@ by {
                    let oa = if a < i { a } else { a + 1 };
                    let ob = if b < i { b } else { b + 1 };
                    assert(self.keys@[a] == old_keys[oa]);
                    assert(self.keys@[b] == old_keys[ob]);
                }
                assert forall|a: int, b: int| 0 <= a < b < self.keys@.len() implies lex_lt(#[trigger] self.keys@[a]@, #[trigger] self.keys@[b]@) by {
                    let oa = if a < i { a } else { a + 1 };
                    let ob = if b < i { b } else { b + 1 };
                    assert(self.keys@[a] == old_keys[oa]);
                    assert(self.keys@[b] == old_keys[ob]);
                }
            },
            None => {
                assert(old_map.remove(key@) =~= old_map);
            },
        }
    }
}

} // verus!
