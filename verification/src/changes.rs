//! Changes that a fork records for one view before they are merged.

use vstd::prelude::*;

use crate::byte_map::{ByteMap, Duplicate};

verus! {

/// What a fork records for one key: a new value, or that the key is gone.
#[derive(Debug)]
pub enum Change {
    /// The key holds the given bytes from now on.
    Put(Vec<u8>),
    /// The key holds nothing from now on.
    Delete,
}

impl View for Change {
    type V = Option<Seq<u8>>;

    /// What the key holds after the change.
    open spec fn view(&self) -> Option<Seq<u8>> {
        match self {
            Change::Put(v) => Some(v@),
            Change::Delete => None,
        }
    }
}

impl Duplicate for Change {
    fn duplicate(&self) -> (r: Change) {
        match self {
            Change::Put(v) => Change::Put(v.duplicate()),
            Change::Delete => Change::Delete,
        }
    }
}

impl Clone for Change {
    fn clone(&self) -> (r: Change)
        ensures
            r@ == self@,
    {
        self.duplicate()
    }
}

/// What a view has recorded: for each key touched what it holds now, and
/// whether the view was cleared.
pub struct ChangesModel {
    /// What each key that was written holds: `None` for a deleted one.
    pub data: Map<Seq<u8>, Option<Seq<u8>>>,
    /// Whether the view was cleared, so that nothing stored before shows.
    pub emptied: bool,
}

impl ChangesModel {
    /// Nothing recorded.
    pub open spec fn pristine() -> ChangesModel {
        ChangesModel { data: Map::empty(), emptied: false }
    }

    /// The record after `key` was given `value`.
    pub open spec fn put(self, key: Seq<u8>, value: Seq<u8>) -> ChangesModel {
        ChangesModel { data: self.data.insert(key, Some(value)), emptied: self.emptied }
    }

    /// The record after `key` was deleted.
    pub open spec fn remove(self, key: Seq<u8>) -> ChangesModel {
        ChangesModel { data: self.data.insert(key, None), emptied: self.emptied }
    }

    /// The record after the view was cleared.
    pub open spec fn clear(self) -> ChangesModel {
        ChangesModel { data: Map::empty(), emptied: true }
    }

    /// What `key` reads as, where `base` is what the store held under it
    /// when the fork was made.
    pub open spec fn read(self, key: Seq<u8>, base: Option<Seq<u8>>) -> Option<Seq<u8>> {
        if self.data.contains_key(key) {
            self.data[key]
        } else if self.emptied {
            None
        } else {
            base
        }
    }
}

/// One step that changes a view.
pub enum Mutation {
    /// `key` is given `value`.
    Put(Seq<u8>, Seq<u8>),
    /// `key` is deleted.
    Remove(Seq<u8>),
    /// The view is cleared.
    Clear,
}

/// The changes of a view together with the states that were saved by
/// `checkpoint` and not yet given up, oldest first.
pub struct SavedModel {
    /// The changes as they stand.
    pub current: ChangesModel,
    /// The saved states.
    pub stack: Seq<ChangesModel>,
}

impl SavedModel {
    /// The state after one mutation: the saved states stay as they are.
    pub open spec fn apply(self, m: Mutation) -> SavedModel {
        SavedModel {
            current: match m {
                Mutation::Put(k, v) => self.current.put(k, v),
                Mutation::Remove(k) => self.current.remove(k),
                Mutation::Clear => self.current.clear(),
            },
            stack: self.stack,
        }
    }

    /// The state after the mutations `ms`, first to last.
    pub open spec fn apply_all(self, ms: Seq<Mutation>) -> SavedModel
        decreases ms.len(),
    {
        if ms.len() == 0 {
            self
        } else {
            self.apply_all(ms.drop_last()).apply(ms.last())
        }
    }

    /// The state after the current changes were saved.
    pub open spec fn checkpoint(self) -> SavedModel {
        SavedModel { current: self.current, stack: self.stack.push(self.current) }
    }

    /// The state after going back to what was saved last.
    pub open spec fn rollback(self) -> SavedModel {
        SavedModel { current: self.stack.last(), stack: self.stack.drop_last() }
    }

    /// The state after what was saved last was given up.
    pub open spec fn commit_checkpoint(self) -> SavedModel {
        SavedModel { current: self.current, stack: self.stack.drop_last() }
    }
}

/// Saving the changes, mutating the view in any way, and going back leaves
/// the view as it was before the changes were saved: the same record, so
/// the same reads, and the same saved states.
pub proof fn lemma_savepoint_law(s: SavedModel, ms: Seq<Mutation>)
    ensures
        s.checkpoint().apply_all(ms).rollback() == s,
        s.checkpoint().apply_all(ms).commit_checkpoint() == (SavedModel {
            current: s.checkpoint().apply_all(ms).current,
            stack: s.stack,
        }),
{
    lemma_apply_all_keeps_stack(s.checkpoint(), ms);
    assert(s.stack.push(s.current).drop_last() =~= s.stack);
}

/// Mutations leave the saved states as they are.
pub proof fn lemma_apply_all_keeps_stack(s: SavedModel, ms: Seq<Mutation>)
    ensures
        s.apply_all(ms).stack == s.stack,
    decreases ms.len(),
{
    if ms.len() > 0 {
        lemma_apply_all_keeps_stack(s, ms.drop_last());
    }
}

/// A saved state of the changes of a view.
pub struct SavedChanges {
    data: ByteMap<Change>,
    empty: bool,
}

impl View for SavedChanges {
    type V = ChangesModel;

    closed spec fn view(&self) -> ChangesModel {
        ChangesModel { data: self.data@, emptied: self.empty }
    }
}

/// The changes that a fork holds for one view, with the states saved by
/// `checkpoint`.
pub struct ViewChanges {
    data: ByteMap<Change>,
    empty: bool,
    savepoints: Vec<SavedChanges>,
}

impl View for ViewChanges {
    type V = ChangesModel;

    closed spec fn view(&self) -> ChangesModel {
        ChangesModel { data: self.data@, emptied: self.empty }
    }
}

impl ViewChanges {
    /// The states saved by `checkpoint` and not yet given up, oldest first.
    pub closed spec fn saved(&self) -> Seq<ChangesModel> {
        Seq::new(self.savepoints@.len(), |i: int| self.savepoints@[i]@)
    }

    /// The changes with the saved states.
    pub open spec fn model(&self) -> SavedModel {
        SavedModel { current: self@, stack: self.saved() }
    }

    /// The keys written, in ascending order.
    pub closed spec fn key_seq(&self) -> Seq<Seq<u8>> {
        self.data.key_seq()
    }

    /// What each written key holds, at the position of the key.
    pub closed spec fn value_seq(&self) -> Seq<Option<Seq<u8>>> {
        self.data.value_seq()
    }

    /// What every record satisfies: the written keys stand in ascending
    /// order, and `data` holds each with its change.
    pub open spec fn wf(&self) -> bool {
        &&& crate::byte_map::strictly_sorted(self.key_seq())
        &&& self.key_seq().len() == self.value_seq().len()
        &&& self@.data == crate::byte_map::entries_map(self.key_seq(), self.value_seq())
    }

    /// Creates a record with no changes and nothing saved.
    pub fn new() -> (r: ViewChanges)
        ensures
            r@ == ChangesModel::pristine(),
            r.saved().len() == 0,
    {
        let r = ViewChanges { data: ByteMap::new(), empty: false, savepoints: Vec::new() };
        assert(r.saved() =~= Seq::<ChangesModel>::empty());
        r
    }

    /// Returns `true` if the view was cleared.
    pub fn is_empty(&self) -> (r: bool)
        ensures
            r == self@.emptied,
    {
        self.empty
    }

    /// Returns the number of keys written.
    pub fn len(&self) -> (n: usize)
        ensures
            n == self.key_seq().len(),
            self.wf(),
    {
        proof {
            use_type_invariant(&self.data);
        }
        self.data.len()
    }

    /// Returns the change recorded for `key`, if there is one.
    pub fn get(&self, key: &[u8]) -> (r: Option<&Change>)
        ensures
            r is Some <==> self@.data.contains_key(key@),
            r matches Some(c) ==> c@ == self@.data[key@],
    {
        self.data.get(key)
    }

    /// Returns the position of the first key written that does not come
    /// before `key`.
    pub fn lower_bound(&self, key: &[u8]) -> (p: usize)
        ensures
            p <= self.key_seq().len(),
            forall|i: int| 0 <= i < p ==> crate::lex::lex_lt(#[trigger] self.key_seq()[i], key@),
            forall|i: int|
                p <= i < self.key_seq().len() ==> crate::lex::lex_le(
                    key@,
                    #[trigger] self.key_seq()[i],
                ),
    {
        self.data.lower_bound(key)
    }

    /// Returns the key written at position `i`.
    pub fn key_at(&self, i: usize) -> (r: &Vec<u8>)
        requires
            i < self.key_seq().len(),
        ensures
            r@ == self.key_seq()[i as int],
    {
        self.data.key_at(i)
    }

    /// Returns the change at position `i`.
    pub fn change_at(&self, i: usize) -> (r: &Change)
        requires
            i < self.key_seq().len(),
        ensures
            r@ == self.value_seq()[i as int],
    {
        self.data.value_at(i)
    }

    /// Records that `key` holds `value`.
    pub fn put(&mut self, key: Vec<u8>, value: Vec<u8>)
        ensures
            final(self).model() == old(self).model().apply(Mutation::Put(key@, value@)),
    {
        self.data.insert(key, Change::Put(value));
    }

    /// Records that `key` holds nothing.
    pub fn remove(&mut self, key: Vec<u8>)
        ensures
            final(self).model() == old(self).model().apply(Mutation::Remove(key@)),
    {
        self.data.insert(key, Change::Delete);
    }

    /// Clears the view: drops what was recorded, and hides what the store
    /// held.
    pub fn clear(&mut self)
        ensures
            final(self).model() == old(self).model().apply(Mutation::Clear),
    {
        self.data.clear();
        self.empty = true;
    }

    /// Replaces the changes by those of `other`; the saved states stay.
    pub fn replace_with(&mut self, other: &ViewChanges)
        ensures
            final(self)@ == other@,
            final(self).saved() == old(self).saved(),
    {
        self.data = other.data.duplicate();
        self.empty = other.empty;
    }

    /// Saves the changes as they stand.
    pub fn checkpoint(&mut self)
        ensures
            final(self).model() == old(self).model().checkpoint(),
    {
        let saved = SavedChanges { data: self.data.duplicate(), empty: self.empty };
        self.savepoints.push(saved);
        assert(self.saved() =~= old(self).saved().push(old(self)@));
    }

    /// Goes back to what was saved last, and gives that saved state up.
    pub fn rollback(&mut self)
        requires
            old(self).saved().len() > 0,
        ensures
            final(self).model() == old(self).model().rollback(),
    {
        let ghost before = self.saved();
        let last = self.savepoints.pop();
        match last {
            Some(saved) => {
                assert(saved@ == before.last());
                self.data = saved.data;
                self.empty = saved.empty;
                assert(self.saved() =~= before.drop_last());
            },
            None => {},
        }
    }

    /// Gives up what was saved last and keeps the changes as they stand.
    pub fn commit_checkpoint(&mut self)
        requires
            old(self).saved().len() > 0,
        ensures
            final(self).model() == old(self).model().commit_checkpoint(),
    {
        let ghost before = self.saved();
        let _ = self.savepoints.pop();
        assert(self.saved() =~= before.drop_last());
    }

    /// Returns the number of saved states.
    pub fn depth(&self) -> (n: usize)
        ensures
            n == self.saved().len(),
    {
        self.savepoints.len()
    }

    /// Returns a copy of the changes with nothing saved.
    pub fn detached(&self) -> (r: ViewChanges)
        ensures
            r@ == self@,
            r.saved().len() == 0,
            r.key_seq() == self.key_seq(),
            r.value_seq() == self.value_seq(),
    {
        let r = ViewChanges {
            data: self.data.duplicate(),
            empty: self.empty,
            savepoints: Vec::new(),
        };
        assert(r.saved() =~= Seq::<ChangesModel>::empty());
        r
    }

    /// Saves the pristine state: as `checkpoint` would have done before
    /// anything was recorded.
    pub fn push_pristine(&mut self)
        ensures
            final(self)@ == old(self)@,
            final(self).saved() == old(self).saved().push(ChangesModel::pristine()),
    {
        let saved = SavedChanges { data: ByteMap::new(), empty: false };
        self.savepoints.push(saved);
        assert(self.saved() =~= old(self).saved().push(ChangesModel::pristine()));
    }
}

} // verus!
