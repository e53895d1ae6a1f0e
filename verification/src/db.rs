//! The store and its transactional views: snapshots, forks and patches.
//!
//! A store holds tables of byte keys and byte values. A snapshot is what
//! the store held at one moment. A fork is a snapshot together with the
//! changes recorded on top of it, one record for each view. A patch is what
//! a fork has recorded, ready to be merged into the store.

use std::sync::Arc;
use vstd::prelude::*;
use vstd::utf8::encode_utf8;

use crate::address::{AddressModel, IndexAddress};
use crate::byte_map::{ByteMap, Duplicate};
use crate::changes::{Change, ChangesModel, Mutation, SavedModel, ViewChanges};
use crate::lex::has_prefix;

verus! {

/// One table of the store: what it holds under each key.
pub type Table = Map<Seq<u8>, Seq<u8>>;

/// The tables of a store, each under the bytes of its name.
pub type DbModel = Map<Seq<u8>, Table>;

/// What a map holds under `key`, if anything.
pub open spec fn lookup<K, V>(m: Map<K, V>, key: K) -> Option<V> {
    if m.contains_key(key) {
        Some(m[key])
    } else {
        None
    }
}

/// The table of `db` named `name`: empty where the store has none.
pub open spec fn table_of(db: DbModel, name: Seq<u8>) -> Table {
    if db.contains_key(name) {
        db[name]
    } else {
        Map::empty()
    }
}

/// What the index at `address` held under `key` in the store `db`.
pub open spec fn base_read(db: DbModel, address: AddressModel, key: Seq<u8>) -> Option<Seq<u8>> {
    lookup(table_of(db, address.table()), address.prefix() + key)
}

/// The table after the changes `c` of a view with family bytes `prefix`
/// were merged: a key that begins with `prefix` holds what the view read
/// under the rest of it, and every other key holds what it held.
pub open spec fn merged_table(table: Table, prefix: Seq<u8>, c: ChangesModel) -> Table {
    Map::new(
        |pk: Seq<u8>|
            if has_prefix(pk, prefix) {
                c.read(pk.skip(prefix.len() as int), lookup(table, pk)) is Some
            } else {
                table.contains_key(pk)
            },
        |pk: Seq<u8>|
            if has_prefix(pk, prefix) {
                c.read(pk.skip(prefix.len() as int), lookup(table, pk))->0
            } else {
                table[pk]
            },
    )
}

/// The store after the changes `c` of the view at `address` were merged.
pub open spec fn merged_view(db: DbModel, address: AddressModel, c: ChangesModel) -> DbModel {
    db.insert(address.table(), merged_table(table_of(db, address.table()), address.prefix(), c))
}

/// The store after the views of a patch were merged, first to last.
pub open spec fn merged(db: DbModel, views: Seq<(AddressModel, ChangesModel)>) -> DbModel
    decreases views.len(),
{
    if views.len() == 0 {
        db
    } else {
        merged_view(merged(db, views.drop_last()), views.last().0, views.last().1)
    }
}

/// Whether `a` is the address of one of `views`.
pub open spec fn among(views: Seq<(AddressModel, ChangesModel)>, a: AddressModel) -> bool {
    exists|i: int| 0 <= i < views.len() && (#[trigger] views[i]).0 == a
}

/// What the index at `a` holds under `key` once `views` were merged into
/// `db`, where `c` is what was recorded for `a`, no address stands twice
/// among the views, and every other view of the table of `a` has recorded
/// nothing: what the view of `a` read under the key.
pub proof fn lemma_merged_read(
    db: DbModel,
    views: Seq<(AddressModel, ChangesModel)>,
    a: AddressModel,
    c: ChangesModel,
    key: Seq<u8>,
)
    requires
        forall|i: int, j: int|
            0 <= i < j < views.len() ==> (#[trigger] views[i]).0 != (#[trigger] views[j]).0,
        forall|i: int| 0 <= i < views.len() && (#[trigger] views[i]).0 == a ==> views[i].1 == c,
        forall|i: int|
            0 <= i < views.len() && (#[trigger] views[i]).0 != a ==> views[i].1
                == ChangesModel::pristine() || views[i].0.table() != a.table(),
        !among(views, a) ==> c == ChangesModel::pristine(),
    ensures
        base_read(merged(db, views), a, key) == c.read(key, base_read(db, a, key)),
    decreases views.len(),
{
    if views.len() > 0 {
        let rest = views.drop_last();
        let last = views.last();
        let n = views.len() - 1;
        let prev = merged(db, rest);
        let pk = a.prefix() + key;
        assert(views[n] == last);
        assert forall|i: int| 0 <= i < rest.len() implies #[trigger] rest[i] == views[i] by {}
        if last.0 == a {
            assert(!among(rest, a)) by {
                if among(rest, a) {
                    let i = choose|i: int| 0 <= i < rest.len() && (#[trigger] rest[i]).0 == a;
                    assert(views[i].0 != views[n].0);
                }
            }
            lemma_merged_read(db, rest, a, ChangesModel::pristine(), key);
            assert(pk.skip(a.prefix().len() as int) =~= key);
            assert(pk.subrange(0, a.prefix().len() as int) =~= a.prefix());
        } else {
            assert(among(rest, a) == among(views, a)) by {
                if among(views, a) {
                    let i = choose|i: int| 0 <= i < views.len() && (#[trigger] views[i]).0 == a;
                    assert(rest[i].0 == a);
                }
                if among(rest, a) {
                    let i = choose|i: int| 0 <= i < rest.len() && (#[trigger] rest[i]).0 == a;
                    assert(views[i].0 == a);
                }
            }
            lemma_merged_read(db, rest, a, c, key);
            if last.0.table() == a.table() {
                assert(last.1 == ChangesModel::pristine());
            }
        }
    }
}

/// Whether two stores hold the same under every key of every table.
pub open spec fn same_tables(a: DbModel, b: DbModel) -> bool {
    forall|name: Seq<u8>| table_of(a, name) == table_of(b, name)
}

/// `Arc::clone`: another handle to the same value.
#[verifier::external_body]
fn share<T>(a: &Arc<T>) -> (r: Arc<T>)
    ensures
        r == a,
{
    Arc::clone(a)
}

/// What a store held at one moment. It never changes.
pub struct Snapshot {
    tables: Arc<ByteMap<ByteMap<Vec<u8>>>>,
}

impl View for Snapshot {
    type V = DbModel;

    closed spec fn view(&self) -> DbModel {
        self.tables@
    }
}

impl Duplicate for Snapshot {
    fn duplicate(&self) -> (r: Snapshot) {
        Snapshot { tables: share(&self.tables) }
    }
}

impl Clone for Snapshot {
    fn clone(&self) -> (r: Snapshot)
        ensures
            r@ == self@,
    {
        self.duplicate()
    }
}

impl Snapshot {
    /// Makes a snapshot of the tables behind `tables`.
    pub(crate) fn from_tables(tables: &Arc<ByteMap<ByteMap<Vec<u8>>>>) -> (r: Snapshot)
        ensures
            r@ == tables@,
    {
        Snapshot { tables: share(tables) }
    }

    /// Returns the table named `name`, if the store has one.
    pub fn table(&self, name: &[u8]) -> (r: Option<&ByteMap<Vec<u8>>>)
        ensures
            r is Some <==> self@.contains_key(name@),
            r matches Some(t) ==> t@ == self@[name@] && t.wf(),
            r is None ==> table_of(self@, name@) == Map::<Seq<u8>, Seq<u8>>::empty(),
            r matches Some(t) ==> t@ == table_of(self@, name@),
    {
        let r = self.tables.get(name);
        proof {
            match r {
                Some(t) => {
                    use_type_invariant(t);
                },
                None => {},
            }
        }
        r
    }

    /// Returns what the table `name` holds under `key`.
    pub fn get(&self, name: &str, key: &[u8]) -> (r: Option<Vec<u8>>)
        ensures
            r is Some <==> table_of(self@, encode_utf8(name@)).contains_key(key@),
            r matches Some(v) ==> v@ == table_of(self@, encode_utf8(name@))[key@],
    {
        match self.table(name.as_bytes()) {
            Some(t) => match t.get(key) {
                Some(v) => Some(v.duplicate()),
                None => None,
            },
            None => None,
        }
    }

    /// Returns `true` if the table `name` holds something under `key`.
    pub fn contains(&self, name: &str, key: &[u8]) -> (r: bool)
        ensures
            r == table_of(self@, encode_utf8(name@)).contains_key(key@),
    {
        match self.table(name.as_bytes()) {
            Some(t) => t.contains_key(key),
            None => false,
        }
    }

    /// Returns the entries of the table `name` whose keys do not come
    /// before `from`, in ascending order of their keys.
    pub fn iter(&self, name: &str, from: &[u8]) -> (r: Vec<(Vec<u8>, Vec<u8>)>)
        ensures
            crate::listing::is_listing(
                crate::listing::pairs_view(r@),
                table_of(self@, encode_utf8(name@)),
                from@,
            ),
    {
        let mut out: Vec<(Vec<u8>, Vec<u8>)> = Vec::new();
        match self.table(name.as_bytes()) {
            Some(t) => {
                proof {
                    t.lemma_view();
                }
                let start: usize = t.lower_bound(from);
                let n: usize = t.len();
                let mut i: usize = start;
                while i < n
                    invariant
                        start <= i <= n,
                        n == t.key_seq().len(),
                        t.wf(),
                        out@.len() == i - start,
                        forall|j: int|
                            0 <= j < out@.len() ==> (#[trigger] out@[j]).0@ == t.key_seq()[start
                                + j] && out@[j].1@ == t.value_seq()[start + j],
                    decreases n - i,
                {
                    out.push((t.key_at(i).duplicate(), t.value_at(i).duplicate()));
                    i += 1;
                }
                proof {
                    let ps = crate::listing::pairs_view(out@);
                    let m = table_of(self@, encode_utf8(name@));
                    assert forall|j: int| 0 <= j < ps.len() implies m.contains_key(
                        (#[trigger] ps[j]).0,
                    ) && m[ps[j].0] == ps[j].1 && crate::lex::lex_le(from@, ps[j].0) by {
                        assert(ps[j].0 == t.key_seq()[start + j]);
                    }
                    assert forall|a: int, b: int| 0 <= a < b < ps.len() implies crate::lex::lex_lt(
                        (#[trigger] ps[a]).0,
                        (#[trigger] ps[b]).0,
                    ) by {
                        assert(ps[a].0 == t.key_seq()[start + a]);
                        assert(ps[b].0 == t.key_seq()[start + b]);
                    }
                    assert forall|k: Seq<u8>|
                        m.contains_key(k) && crate::lex::lex_le(from@, k) implies exists|j: int|
                        0 <= j < ps.len() && (#[trigger] ps[j]).0 == k by {
                        let p = t.key_seq().index_of(k);
                        assert(t.key_seq()[p] == k);
                        crate::lex::lemma_lex_total(k, from@);
                        assert(p >= start);
                        assert(ps[p - start].0 == k);
                    }
                }
            },
            None => {},
        }
        out
    }
}

/// What a fork has recorded for one view.
pub struct PatchEntry {
    address: IndexAddress,
    changes: ViewChanges,
}

impl PatchEntry {
    /// The address of the view.
    pub closed spec fn spec_address(&self) -> AddressModel {
        self.address@
    }

    /// What was recorded, with the saved states.
    pub closed spec fn spec_changes(&self) -> SavedModel {
        self.changes.model()
    }

    /// Returns the address of the view.
    pub fn address(&self) -> (r: &IndexAddress)
        ensures
            r@ == self.spec_address(),
    {
        &self.address
    }

    /// Returns what was recorded for the view.
    pub fn changes(&self) -> (r: &ViewChanges)
        ensures
            r.model() == self.spec_changes(),
    {
        &self.changes
    }
}

/// The addresses of `entries`, in their order.
pub open spec fn addresses(entries: Seq<PatchEntry>) -> Seq<AddressModel> {
    Seq::new(entries.len(), |i: int| entries[i].spec_address())
}

/// No address stands twice in `s`.
pub open spec fn distinct(s: Seq<AddressModel>) -> bool {
    forall|i: int, j: int| 0 <= i < j < s.len() ==> s[i] != s[j]
}

/// What was recorded for each view, in the order of `entries`.
pub open spec fn recorded(entries: Seq<PatchEntry>) -> Seq<(AddressModel, ChangesModel)> {
    Seq::new(entries.len(), |i: int| (entries[i].spec_address(), entries[i].spec_changes().current))
}

/// All that a fork has recorded, view by view, in the order in which the
/// views were first written.
pub struct Patch {
    entries: Vec<PatchEntry>,
}

impl Patch {
    /// The views of the patch with what was recorded for each.
    pub closed spec fn views(&self) -> Seq<(AddressModel, ChangesModel)> {
        recorded(self.entries@)
    }

    /// Creates a patch that changes nothing.
    pub fn new() -> (r: Patch)
        ensures
            r.views().len() == 0,
    {
        Patch { entries: Vec::new() }
    }

    /// Returns the number of views in the patch.
    pub fn len(&self) -> (n: usize)
        ensures
            n == self.views().len(),
    {
        self.entries.len()
    }

    /// Returns the address of view `i`.
    pub fn address_at(&self, i: usize) -> (r: &IndexAddress)
        requires
            i < self.views().len(),
        ensures
            r@ == self.views()[i as int].0,
    {
        &self.entries[i].address
    }

    /// Returns what was recorded for view `i`.
    pub fn changes_at(&self, i: usize) -> (r: &ViewChanges)
        requires
            i < self.views().len(),
        ensures
            r@ == self.views()[i as int].1,
    {
        &self.entries[i].changes
    }
}

/// A write view of the store: a snapshot and the changes recorded on top of
/// it, one record for each view.
pub struct Fork {
    snapshot: Snapshot,
    entries: Vec<PatchEntry>,
    depth: usize,
}

impl Fork {
    /// What the store held when the fork was made.
    pub closed spec fn base(&self) -> DbModel {
        self.snapshot@
    }

    /// Number of states saved by `checkpoint` and not yet given up.
    pub closed spec fn spec_depth(&self) -> nat {
        self.depth as nat
    }

    /// The views written so far with what was recorded for each.
    pub closed spec fn views(&self) -> Seq<(AddressModel, ChangesModel)> {
        recorded(self.entries@)
    }

    /// Position of the record of the view at `address`, if there is one.
    pub closed spec fn slot(&self, address: AddressModel) -> Option<int> {
        if addresses(self.entries@).contains(address) {
            Some(addresses(self.entries@).index_of(address))
        } else {
            None
        }
    }

    /// What was recorded for the view at `address`, with the saved states.
    /// A view that was never written has recorded nothing, at each saved
    /// state as well.
    pub closed spec fn saved_model(&self, address: AddressModel) -> SavedModel {
        match self.slot(address) {
            Some(i) => self.entries@[i].spec_changes(),
            None => SavedModel {
                current: ChangesModel::pristine(),
                stack: Seq::new(self.depth as nat, |i: int| ChangesModel::pristine()),
            },
        }
    }

    /// What was recorded for the view at `address`.
    pub open spec fn changes_of(&self, address: AddressModel) -> ChangesModel {
        self.saved_model(address).current
    }

    /// What the view at `address` reads under `key`: what was recorded for
    /// the key; nothing where the view was cleared since; else what the
    /// store held.
    pub open spec fn read(&self, address: AddressModel, key: Seq<u8>) -> Option<Seq<u8>> {
        self.changes_of(address).read(key, base_read(self.base(), address, key))
    }

    #[verifier::type_invariant]
    closed spec fn inv(self) -> bool {
        &&& distinct(addresses(self.entries@))
        &&& forall|i: int|
            0 <= i < self.entries@.len() ==> (#[trigger] self.entries@[i]).spec_changes().stack.len()
                == self.depth
    }

    /// Creates a fork of `snapshot` with nothing recorded.
    pub fn new(snapshot: Snapshot) -> (r: Fork)
        ensures
            r.base() == snapshot@,
            r.spec_depth() == 0,
            r.views().len() == 0,
            forall|a: AddressModel| r.changes_of(a) == ChangesModel::pristine(),
    {
        Fork { snapshot, entries: Vec::new(), depth: 0 }
    }

    /// Returns the snapshot on which the fork is based.
    pub fn snapshot(&self) -> (r: &Snapshot)
        ensures
            r@ == self.base(),
    {
        &self.snapshot
    }

    /// Returns the position of the record of `address`.
    fn find(&self, address: &IndexAddress) -> (r: Option<usize>)
        ensures
            match r {
                Some(i) => self.slot(address@) == Some(i as int) && i < self.entries@.len()
                    && self.entries@[i as int].spec_address() == address@,
                None => self.slot(address@) is None,
            },
    {
        proof {
            use_type_invariant(self);
        }
        let n: usize = self.entries.len();
        let mut i: usize = 0;
        while i < n
            invariant
                n == self.entries@.len(),
                i <= n,
                distinct(addresses(self.entries@)),
                forall|j: int| 0 <= j < i ==> addresses(self.entries@)[j] != address@,
            decreases n - i,
        {
            if self.entries[i].address == *address {
                proof {
                    let s = addresses(self.entries@);
                    assert(s[i as int] == address@);
                    let k = s.index_of(address@);
                    assert(s[k] == address@);
                }
                return Some(i);
            }
            i += 1;
        }
        proof {
            let s = addresses(self.entries@);
            if s.contains(address@) {
                let k = s.index_of(address@);
                assert(s[k] == address@);
            }
        }
        None
    }

    /// Returns what was recorded for the view at `address`, if it was ever
    /// written.
    pub fn changes(&self, address: &IndexAddress) -> (r: Option<&ViewChanges>)
        ensures
            r matches Some(c) ==> c@ == self.changes_of(address@),
            r is None ==> self.changes_of(address@) == ChangesModel::pristine(),
    {
        match self.find(address) {
            Some(i) => Some(&self.entries[i].changes),
            None => None,
        }
    }

    /// Returns the position of the record of `address`, with a new record
    /// at the end where there was none.
    fn slot_for(&mut self, address: &IndexAddress) -> (i: usize)
        ensures
            final(self).base() == old(self).base(),
            final(self).spec_depth() == old(self).spec_depth(),
            forall|a: AddressModel| final(self).saved_model(a) == old(self).saved_model(a),
            final(self).slot(address@) == Some(i as int),
            i < final(self).entries@.len(),
            final(self).entries@[i as int].spec_address() == address@,
    {
        proof {
            use_type_invariant(&*self);
        }
        match self.find(address) {
            Some(i) => i,
            None => {
                let mut changes = ViewChanges::new();
                let mut d: usize = 0;
                while d < self.depth
                    invariant
                        d <= self.depth,
                        changes@ == ChangesModel::pristine(),
                        changes.saved() == Seq::new(d as nat, |i: int| ChangesModel::pristine()),
                    decreases self.depth - d,
                {
                    changes.push_pristine();
                    assert(changes.saved() =~= Seq::new(
                        (d + 1) as nat,
                        |i: int| ChangesModel::pristine(),
                    ));
                    d += 1;
                }
                let entry = PatchEntry { address: address.duplicate(), changes };
                let ghost before = self.entries@;
                let ghost old_self = *self;
                let mut taken: Vec<PatchEntry> = Vec::new();
                let n: usize = self.entries.len();
                proof {
                    let listed = addresses(before);
                    let relisted = addresses(before.push(entry));
                    assert forall|i: int, j: int| 0 <= i < j < relisted.len() implies relisted[i] != relisted[j] by {
                        if j < listed.len() {
                            assert(relisted[i] == listed[i]);
                            assert(relisted[j] == listed[j]);
                        } else {
                            assert(relisted[i] == listed[i]);
                            assert(listed.contains(listed[i]));
                        }
                    }
                }
                core::mem::swap(&mut taken, &mut self.entries);
                taken.push(entry);
                assert(addresses(taken@) =~= addresses(before.push(entry)));
                self.entries = taken;
                proof {
                    let listed = addresses(before);
                    let relisted = addresses(self.entries@);
                    assert(relisted[n as int] == address@);
                    let k = relisted.index_of(address@);
                    assert(relisted[k] == address@);
                    assert forall|a: AddressModel| self.saved_model(a) == old_self.saved_model(
                        a,
                    ) by {
                        if listed.contains(a) {
                            let p = listed.index_of(a);
                            assert(listed[p] == a);
                            assert(relisted[p] == a);
                            let q = relisted.index_of(a);
                            assert(relisted[q] == a);
                        } else if a == address@ {
                        } else {
                            if relisted.contains(a) {
                                let q = relisted.index_of(a);
                                assert(relisted[q] == a);
                                assert(listed[q] == a);
                            }
                        }
                    }
                }
                n
            },
        }
    }

    /// Returns what the view at `address` holds under `key`.
    pub fn get(&self, address: &IndexAddress, key: &[u8]) -> (r: Option<Vec<u8>>)
        ensures
            r is Some <==> self.read(address@, key@) is Some,
            r matches Some(v) ==> Some(v@) == self.read(address@, key@),
    {
        match self.changes(address) {
            Some(changes) => {
                match changes.get(key) {
                    Some(Change::Put(v)) => {
                        return Some(v.duplicate());
                    },
                    Some(Change::Delete) => {
                        return None;
                    },
                    None => {},
                }
                if changes.is_empty() {
                    return None;
                }
            },
            None => {},
        }
        let (name, physical) = address.keyed(key);
        self.snapshot.get(name, physical.as_slice())
    }

    /// Returns `true` if the view at `address` holds something under `key`.
    pub fn contains(&self, address: &IndexAddress, key: &[u8]) -> (r: bool)
        ensures
            r == self.read(address@, key@) is Some,
    {
        match self.changes(address) {
            Some(changes) => {
                match changes.get(key) {
                    Some(Change::Put(_)) => {
                        return true;
                    },
                    Some(Change::Delete) => {
                        return false;
                    },
                    None => {},
                }
                if changes.is_empty() {
                    return false;
                }
            },
            None => {},
        }
        let (name, physical) = address.keyed(key);
        self.snapshot.contains(name, physical.as_slice())
    }

    /// Records that the view at `address` holds `value` under `key`.
    pub fn put(&mut self, address: &IndexAddress, key: Vec<u8>, value: Vec<u8>)
        ensures
            final(self).base() == old(self).base(),
            final(self).spec_depth() == old(self).spec_depth(),
            final(self).saved_model(address@) == old(self).saved_model(address@).apply(
                Mutation::Put(key@, value@),
            ),
            forall|a: AddressModel|
                a != address@ ==> final(self).saved_model(a) == old(self).saved_model(a),
    {
        let i = self.slot_for(address);
        let ghost mid = *self;
        proof {
            use_type_invariant(&*self);
        }
        let mut taken: Vec<PatchEntry> = Vec::new();
        core::mem::swap(&mut taken, &mut self.entries);
        let mut entry = taken.remove(i);
        entry.changes.put(key, value);
        taken.insert(i, entry);
        proof {
            lemma_same_addresses(mid.entries@, taken@, i as int);
        }
        self.entries = taken;
        proof {
            lemma_updated(mid, *self, i as int);
        }
    }

    /// Records that the view at `address` holds nothing under `key`.
    pub fn remove(&mut self, address: &IndexAddress, key: Vec<u8>)
        ensures
            final(self).base() == old(self).base(),
            final(self).spec_depth() == old(self).spec_depth(),
            final(self).saved_model(address@) == old(self).saved_model(address@).apply(
                Mutation::Remove(key@),
            ),
            forall|a: AddressModel|
                a != address@ ==> final(self).saved_model(a) == old(self).saved_model(a),
    {
        let i = self.slot_for(address);
        let ghost mid = *self;
        proof {
            use_type_invariant(&*self);
        }
        let mut taken: Vec<PatchEntry> = Vec::new();
        core::mem::swap(&mut taken, &mut self.entries);
        let mut entry = taken.remove(i);
        entry.changes.remove(key);
        taken.insert(i, entry);
        proof {
            lemma_same_addresses(mid.entries@, taken@, i as int);
        }
        self.entries = taken;
        proof {
            lemma_updated(mid, *self, i as int);
        }
    }

    /// Clears the view at `address`: it reads as empty from now on, and at
    /// merge time all that the store holds for it is dropped.
    pub fn clear(&mut self, address: &IndexAddress)
        ensures
            final(self).base() == old(self).base(),
            final(self).spec_depth() == old(self).spec_depth(),
            final(self).saved_model(address@) == old(self).saved_model(address@).apply(
                Mutation::Clear,
            ),
            forall|a: AddressModel|
                a != address@ ==> final(self).saved_model(a) == old(self).saved_model(a),
    {
        let i = self.slot_for(address);
        let ghost mid = *self;
        proof {
            use_type_invariant(&*self);
        }
        let mut taken: Vec<PatchEntry> = Vec::new();
        core::mem::swap(&mut taken, &mut self.entries);
        let mut entry = taken.remove(i);
        entry.changes.clear();
        taken.insert(i, entry);
        proof {
            lemma_same_addresses(mid.entries@, taken@, i as int);
        }
        self.entries = taken;
        proof {
            lemma_updated(mid, *self, i as int);
        }
    }

    /// Replaces what was recorded for the view at `address` by `changes`.
    /// The states saved for the view stay.
    pub fn replace(&mut self, address: &IndexAddress, changes: &ViewChanges)
        ensures
            final(self).base() == old(self).base(),
            final(self).spec_depth() == old(self).spec_depth(),
            final(self).changes_of(address@) == changes@,
            final(self).saved_model(address@).stack == old(self).saved_model(address@).stack,
            forall|a: AddressModel|
                a != address@ ==> final(self).saved_model(a) == old(self).saved_model(a),
    {
        let i = self.slot_for(address);
        let ghost mid = *self;
        proof {
            use_type_invariant(&*self);
        }
        let mut taken: Vec<PatchEntry> = Vec::new();
        core::mem::swap(&mut taken, &mut self.entries);
        let mut entry = taken.remove(i);
        entry.changes.replace_with(changes);
        taken.insert(i, entry);
        proof {
            lemma_same_addresses(mid.entries@, taken@, i as int);
        }
        self.entries = taken;
        proof {
            lemma_updated(mid, *self, i as int);
        }
    }

    /// Saves what every view has recorded.
    pub fn checkpoint(&mut self)
        requires
            old(self).spec_depth() < usize::MAX,
        ensures
            final(self).base() == old(self).base(),
            final(self).spec_depth() == old(self).spec_depth() + 1,
            forall|a: AddressModel|
                final(self).saved_model(a) == old(self).saved_model(a).checkpoint(),
    {
        proof {
            use_type_invariant(&*self);
        }
        let ghost before = *self;
        let mut taken: Vec<PatchEntry> = Vec::new();
        core::mem::swap(&mut taken, &mut self.entries);
        let n: usize = taken.len();
        let mut done: Vec<PatchEntry> = Vec::new();
        let mut i: usize = n;
        while i > 0
            invariant
                i <= n,
                taken@.len() == i,
                done@.len() == n - i,
                n == before.entries@.len(),
                forall|j: int| 0 <= j < i ==> taken@[j] == before.entries@[j],
                forall|j: int|
                    0 <= j < n - i ==> (#[trigger] done@[j]).spec_address() == before.entries@[n - 1
                        - j].spec_address() && done@[j].spec_changes() == before.entries@[n - 1
                        - j].spec_changes().checkpoint(),
            decreases i,
        {
            let popped = taken.pop();
            match popped {
                Some(mut entry) => {
                    entry.changes.checkpoint();
                    done.push(entry);
                },
                None => {},
            }
            i -= 1;
        }
        let mut k: usize = n;
        while k > 0
            invariant
                k <= n,
                done@.len() == k,
                taken@.len() == n - k,
                n == before.entries@.len(),
                forall|j: int|
                    0 <= j < k ==> (#[trigger] done@[j]).spec_address() == before.entries@[n - 1
                        - j].spec_address() && done@[j].spec_changes() == before.entries@[n - 1
                        - j].spec_changes().checkpoint(),
                forall|j: int|
                    0 <= j < n - k ==> (#[trigger] taken@[j]).spec_address()
                        == before.entries@[j].spec_address() && taken@[j].spec_changes()
                        == before.entries@[j].spec_changes().checkpoint(),
            decreases k,
        {
            let popped = done.pop();
            match popped {
                Some(entry) => {
                    taken.push(entry);
                },
                None => {},
            }
            k -= 1;
        }
        proof {
            assert(addresses(taken@) =~= addresses(before.entries@));
        }
        let rebuilt = Fork { snapshot: self.snapshot.duplicate(), entries: taken, depth: self.depth + 1 };
        proof {
            assert forall|a: AddressModel| rebuilt.saved_model(a) == before.saved_model(
                a,
            ).checkpoint() by {
                match before.slot(a) {
                    Some(p) => {},
                    None => {
                        assert(rebuilt.saved_model(a).stack =~= before.saved_model(a).stack.push(
                            ChangesModel::pristine(),
                        ));
                    },
                }
            }
        }
        *self = rebuilt;
    }

    /// Goes back to what was saved last, and gives that saved state up.
    pub fn rollback(&mut self)
        requires
            old(self).spec_depth() > 0,
        ensures
            final(self).base() == old(self).base(),
            final(self).spec_depth() == old(self).spec_depth() - 1,
            forall|a: AddressModel| final(self).saved_model(a) == old(self).saved_model(a).rollback(),
    {
        proof {
            use_type_invariant(&*self);
        }
        let ghost before = *self;
        let mut taken: Vec<PatchEntry> = Vec::new();
        core::mem::swap(&mut taken, &mut self.entries);
        let n: usize = taken.len();
        let mut done: Vec<PatchEntry> = Vec::new();
        let mut i: usize = n;
        while i > 0
            invariant
                i <= n,
                taken@.len() == i,
                done@.len() == n - i,
                n == before.entries@.len(),
                before.depth > 0,
                forall|j: int|
                    0 <= j < n ==> (#[trigger] before.entries@[j]).spec_changes().stack.len()
                        == before.depth,
                forall|j: int| 0 <= j < i ==> taken@[j] == before.entries@[j],
                forall|j: int|
                    0 <= j < n - i ==> (#[trigger] done@[j]).spec_address() == before.entries@[n - 1
                        - j].spec_address() && done@[j].spec_changes() == before.entries@[n - 1
                        - j].spec_changes().rollback(),
            decreases i,
        {
            let popped = taken.pop();
            match popped {
                Some(mut entry) => {
                    assert(entry == before.entries@[i - 1]);
                    entry.changes.rollback();
                    done.push(entry);
                },
                None => {},
            }
            i -= 1;
        }
        let mut k: usize = n;
        while k > 0
            invariant
                k <= n,
                done@.len() == k,
                taken@.len() == n - k,
                n == before.entries@.len(),
                forall|j: int|
                    0 <= j < k ==> (#[trigger] done@[j]).spec_address() == before.entries@[n - 1
                        - j].spec_address() && done@[j].spec_changes() == before.entries@[n - 1
                        - j].spec_changes().rollback(),
                forall|j: int|
                    0 <= j < n - k ==> (#[trigger] taken@[j]).spec_address()
                        == before.entries@[j].spec_address() && taken@[j].spec_changes()
                        == before.entries@[j].spec_changes().rollback(),
            decreases k,
        {
            let popped = done.pop();
            match popped {
                Some(entry) => {
                    taken.push(entry);
                },
                None => {},
            }
            k -= 1;
        }
        proof {
            assert(addresses(taken@) =~= addresses(before.entries@));
        }
        let rebuilt = Fork { snapshot: self.snapshot.duplicate(), entries: taken, depth: self.depth - 1 };
        proof {
            assert forall|a: AddressModel| rebuilt.saved_model(a) == before.saved_model(
                a,
            ).rollback() by {
                match before.slot(a) {
                    Some(p) => {},
                    None => {
                        assert(rebuilt.saved_model(a).stack =~= before.saved_model(
                            a,
                        ).stack.drop_last());
                    },
                }
            }
        }
        *self = rebuilt;
    }

    /// Gives up what was saved last and keeps the changes as they stand.
    pub fn commit_checkpoint(&mut self)
        requires
            old(self).spec_depth() > 0,
        ensures
            final(self).base() == old(self).base(),
            final(self).spec_depth() == old(self).spec_depth() - 1,
            forall|a: AddressModel|
                final(self).saved_model(a) == old(self).saved_model(a).commit_checkpoint(),
    {
        proof {
            use_type_invariant(&*self);
        }
        let ghost before = *self;
        let mut taken: Vec<PatchEntry> = Vec::new();
        core::mem::swap(&mut taken, &mut self.entries);
        let n: usize = taken.len();
        let mut done: Vec<PatchEntry> = Vec::new();
        let mut i: usize = n;
        while i > 0
            invariant
                i <= n,
                taken@.len() == i,
                done@.len() == n - i,
                n == before.entries@.len(),
                before.depth > 0,
                forall|j: int|
                    0 <= j < n ==> (#[trigger] before.entries@[j]).spec_changes().stack.len()
                        == before.depth,
                forall|j: int| 0 <= j < i ==> taken@[j] == before.entries@[j],
                forall|j: int|
                    0 <= j < n - i ==> (#[trigger] done@[j]).spec_address() == before.entries@[n - 1
                        - j].spec_address() && done@[j].spec_changes() == before.entries@[n - 1
                        - j].spec_changes().commit_checkpoint(),
            decreases i,
        {
            let popped = taken.pop();
            match popped {
                Some(mut entry) => {
                    assert(entry == before.entries@[i - 1]);
                    entry.changes.commit_checkpoint();
                    done.push(entry);
                },
                None => {},
            }
            i -= 1;
        }
        let mut k: usize = n;
        while k > 0
            invariant
                k <= n,
                done@.len() == k,
                taken@.len() == n - k,
                n == before.entries@.len(),
                forall|j: int|
                    0 <= j < k ==> (#[trigger] done@[j]).spec_address() == before.entries@[n - 1
                        - j].spec_address() && done@[j].spec_changes() == before.entries@[n - 1
                        - j].spec_changes().commit_checkpoint(),
                forall|j: int|
                    0 <= j < n - k ==> (#[trigger] taken@[j]).spec_address()
                        == before.entries@[j].spec_address() && taken@[j].spec_changes()
                        == before.entries@[j].spec_changes().commit_checkpoint(),
            decreases k,
        {
            let popped = done.pop();
            match popped {
                Some(entry) => {
                    taken.push(entry);
                },
                None => {},
            }
            k -= 1;
        }
        proof {
            assert(addresses(taken@) =~= addresses(before.entries@));
        }
        let rebuilt = Fork { snapshot: self.snapshot.duplicate(), entries: taken, depth: self.depth - 1 };
        proof {
            assert forall|a: AddressModel| rebuilt.saved_model(a) == before.saved_model(
                a,
            ).commit_checkpoint() by {
                match before.slot(a) {
                    Some(p) => {},
                    None => {
                        assert(rebuilt.saved_model(a).stack =~= before.saved_model(
                            a,
                        ).stack.drop_last());
                    },
                }
            }
        }
        *self = rebuilt;
    }

    /// Whether the views listed are the views written: no address stands
    /// twice among them, each stands with what was recorded for it, and
    /// nothing was recorded for an address that is not among them.
    pub open spec fn linked(&self) -> bool {
        &&& forall|i: int, j: int|
            0 <= i < j < self.views().len() ==> (#[trigger] self.views()[i]).0 != (
            #[trigger] self.views()[j]).0
        &&& forall|i: int|
            0 <= i < self.views().len() ==> self.changes_of((#[trigger] self.views()[i]).0)
                == self.views()[i].1
        &&& forall|a: AddressModel|
            (forall|i: int| 0 <= i < self.views().len() ==> (#[trigger] self.views()[i]).0 != a)
                ==> #[trigger] self.changes_of(a) == ChangesModel::pristine()
    }

    /// The views listed are the views written.
    proof fn lemma_linked(self)
        requires
            distinct(addresses(self.entries@)),
        ensures
            self.linked(),
    {
        let adr = addresses(self.entries@);
        assert forall|i: int| 0 <= i < self.views().len() implies self.changes_of(
            (#[trigger] self.views()[i]).0,
        ) == self.views()[i].1 by {
            assert(adr[i] == self.views()[i].0);
            assert(adr.contains(adr[i]));
            let p = adr.index_of(adr[i]);
            assert(adr[p] == adr[i]);
            assert(p == i);
        }
        assert forall|i: int, j: int| 0 <= i < j < self.views().len() implies (
        #[trigger] self.views()[i]).0 != (#[trigger] self.views()[j]).0 by {
            assert(adr[i] != adr[j]);
        }
        assert forall|a: AddressModel|
            (forall|i: int|
                0 <= i < self.views().len() ==> (#[trigger] self.views()[i]).0
                    != a) implies #[trigger] self.changes_of(a) == ChangesModel::pristine() by {
            if adr.contains(a) {
                let p = adr.index_of(a);
                assert(adr[p] == a);
                assert(self.views()[p].0 == a);
            }
        }
    }

    /// Once the views of a fork are merged into the store `db`, the store
    /// holds at `a` what the fork read there, where the fork has recorded
    /// nothing for any other address of the table of `a`.
    pub proof fn lemma_merge_reads(self, db: DbModel, a: AddressModel, key: Seq<u8>)
        requires
            self.linked(),
            forall|b: AddressModel|
                b != a && b.table() == a.table() ==> #[trigger] self.changes_of(b)
                    == ChangesModel::pristine(),
        ensures
            base_read(merged(db, self.views()), a, key) == self.changes_of(a).read(
                key,
                base_read(db, a, key),
            ),
    {
        let views = self.views();
        assert forall|i: int| 0 <= i < views.len() && (#[trigger] views[i]).0 != a implies views[i].1
            == ChangesModel::pristine() || views[i].0.table() != a.table() by {
            assert(self.changes_of(views[i].0) == views[i].1);
        }
        if !among(views, a) {
            assert forall|i: int| 0 <= i < views.len() implies (#[trigger] views[i]).0 != a by {}
        }
        lemma_merged_read(db, views, a, self.changes_of(a), key);
    }

    /// Returns the number of states saved by `checkpoint` and not yet
    /// given up: every view has that many saved states. The views listed
    /// are the views written.
    pub fn depth(&self) -> (n: usize)
        ensures
            n == self.spec_depth(),
            forall|a: AddressModel| (#[trigger] self.saved_model(a)).stack.len() == n,
            self.linked(),
    {
        proof {
            use_type_invariant(self);
            self.lemma_linked();
            assert forall|a: AddressModel| (#[trigger] self.saved_model(a)).stack.len()
                == self.depth by {
                match self.slot(a) {
                    Some(i) => {
                        assert(addresses(self.entries@)[i] == a);
                    },
                    None => {},
                }
            }
        }
        self.depth
    }

    /// Freezes the fork into the patch of all that it has recorded: the
    /// views of the patch are the views written, each with what was
    /// recorded for it.
    pub fn into_patch(self) -> (r: Patch)
        ensures
            r.views() == self.views(),
            self.linked(),
    {
        proof {
            use_type_invariant(&self);
            self.lemma_linked();
        }
        Patch { entries: self.entries }
    }
}

/// Putting a changed record back at its place leaves the addresses as they
/// were.
proof fn lemma_same_addresses(before: Seq<PatchEntry>, after: Seq<PatchEntry>, i: int)
    requires
        0 <= i < before.len(),
        after.len() == before.len(),
        forall|j: int| 0 <= j < before.len() && j != i ==> after[j] == before[j],
        after[i].spec_address() == before[i].spec_address(),
    ensures
        addresses(after) == addresses(before),
{
    assert(addresses(after) =~= addresses(before));
}

/// A fork in which one record was changed reads as before at every other
/// address.
proof fn lemma_updated(before: Fork, after: Fork, i: int)
    requires
        0 <= i < before.entries@.len(),
        after.entries@.len() == before.entries@.len(),
        addresses(after.entries@) == addresses(before.entries@),
        forall|j: int| 0 <= j < before.entries@.len() && j != i ==> after.entries@[j]
            == before.entries@[j],
        after.depth == before.depth,
        before.slot(before.entries@[i].spec_address()) == Some(i),
    ensures
        after.saved_model(before.entries@[i].spec_address()) == after.entries@[i].spec_changes(),
        forall|a: AddressModel|
            a != before.entries@[i].spec_address() ==> after.saved_model(a) == before.saved_model(a),
{
    assert forall|a: AddressModel| a != before.entries@[i].spec_address() implies after.saved_model(
        a,
    ) == before.saved_model(a) by {
        match before.slot(a) {
            Some(p) => {
                assert(addresses(before.entries@)[p] == a);
            },
            None => {},
        }
    }
}

/// An error of the store.
#[derive(Debug)]
pub struct Error {
    message: String,
}

impl Error {
    /// Creates an error with the given message.
    pub fn new(message: &str) -> (r: Error)
        ensures
            r.spec_message() == message@,
    {
        Error { message: message.to_owned() }
    }

    /// The message of the error.
    pub closed spec fn spec_message(&self) -> Seq<char> {
        self.message@
    }

    /// Returns the message of the error.
    pub fn message(&self) -> (r: &str)
        ensures
            r@ == self.spec_message(),
    {
        self.message.as_str()
    }
}

/// A store that hands out snapshots and forks and merges patches.
pub trait Database {
    /// What the store holds.
    spec fn state(&self) -> DbModel;

    /// Returns what the store holds at this moment, to be read at leisure.
    fn snapshot(&self) -> (s: Snapshot)
        ensures
            same_tables(s@, self.state()),
    ;

    /// Returns a fork based on what the store holds at this moment.
    fn fork(&self) -> (f: Fork)
        ensures
            same_tables(f.base(), self.state()),
            f.spec_depth() == 0,
            f.views().len() == 0,
            forall|a: AddressModel| f.changes_of(a) == ChangesModel::pristine(),
    ;

    /// Merges a patch into the store, all of it or nothing: on success the
    /// store holds what the views of the patch read; on failure it holds
    /// what it held.
    fn merge(&mut self, patch: Patch) -> (r: Result<(), Error>)
        ensures
            r is Ok ==> same_tables(final(self).state(), merged(old(self).state(), patch.views())),
            r is Err ==> final(self).state() == old(self).state(),
    ;
}

} // verus!
