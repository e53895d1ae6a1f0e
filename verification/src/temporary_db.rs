//! A store that lives in memory.

use std::sync::Arc;
use vstd::prelude::*;

use crate::byte_map::{ByteMap, Duplicate};
use crate::changes::{Change, ViewChanges};
use crate::db::{
    lookup, merged, merged_table, merged_view, same_tables, table_of, Database, DbModel, Error,
    Fork, Patch, Snapshot, Table,
};
use crate::lex::{has_prefix, starts_with};

verus! {

/// The table without the keys that begin with `prefix`.
pub open spec fn without_prefix(table: Table, prefix: Seq<u8>) -> Table {
    Map::new(
        |pk: Seq<u8>| table.contains_key(pk) && !has_prefix(pk, prefix),
        |pk: Seq<u8>| table[pk],
    )
}

/// Whether `pk` stands among the first `i` of `ks`.
pub open spec fn seen(ks: Seq<Seq<u8>>, i: int, pk: Seq<u8>) -> bool {
    exists|j: int| 0 <= j < i && #[trigger] ks[j] == pk
}

/// Returns a copy of `table` without the keys that begin with `prefix`.
pub fn drop_prefix(table: &ByteMap<Vec<u8>>, prefix: &[u8]) -> (r: ByteMap<Vec<u8>>)
    ensures
        r.wf(),
        r@ == without_prefix(table@, prefix@),
{
    proof {
        use_type_invariant(table);
        table.lemma_view();
    }
    let mut out: ByteMap<Vec<u8>> = ByteMap::new();
    let n: usize = table.len();
    let ghost ks = table.key_seq();
    let mut i: usize = 0;
    while i < n
        invariant
            i <= n,
            n == ks.len(),
            ks == table.key_seq(),
            table.wf(),
            out.wf(),
            forall|pk: Seq<u8>|
                #[trigger] out@.contains_key(pk) <==> (seen(ks, i as int, pk) && !has_prefix(
                    pk,
                    prefix@,
                )),
            forall|pk: Seq<u8>| #[trigger] out@.contains_key(pk) ==> out@[pk] == table@[pk],
        decreases n - i,
    {
        let key = table.key_at(i);
        let ghost before = out@;
        proof {
            table.lemma_view();
        }
        if !starts_with(key.as_slice(), prefix) {
            out.insert(key.duplicate(), table.value_at(i).duplicate());
        }
        proof {
            assert forall|pk: Seq<u8>| #[trigger]
                out@.contains_key(pk) <==> (seen(ks, i + 1, pk) && !has_prefix(pk, prefix@)) by {
                if before.contains_key(pk) {
                    let j = choose|j: int| 0 <= j < i && #[trigger] ks[j] == pk;
                    assert(0 <= j < i + 1 && ks[j] == pk);
                }
                if out@.contains_key(pk) && !before.contains_key(pk) {
                    assert(ks[i as int] == pk);
                }
                if seen(ks, i + 1, pk) && !has_prefix(pk, prefix@) {
                    let j = choose|j: int| 0 <= j < i + 1 && #[trigger] ks[j] == pk;
                    if j < i {
                        assert(seen(ks, i as int, pk));
                        assert(before.contains_key(pk));
                    }
                }
            }
        }
        i += 1;
    }
    proof {
        let target = without_prefix(table@, prefix@);
        assert forall|pk: Seq<u8>| out@.contains_key(pk) == target.contains_key(pk) by {
            if table@.contains_key(pk) {
                let j = ks.index_of(pk);
                assert(ks[j] == pk);
                assert(seen(ks, n as int, pk));
            }
            if out@.contains_key(pk) {
                let j = choose|j: int| 0 <= j < n && #[trigger] ks[j] == pk;
            }
        }
        assert(out@ =~= target);
    }
    out
}

/// The key of the table under which `key` of a view with family bytes
/// `prefix` lies.
pub fn physical_key(prefix: &[u8], key: &[u8]) -> (r: Vec<u8>)
    ensures
        r@ == prefix@ + key@,
        has_prefix(r@, prefix@),
        r@.skip(prefix@.len() as int) == key@,
{
    let mut out: Vec<u8> = Vec::new();
    out.extend_from_slice(prefix);
    out.extend_from_slice(key);
    proof {
        assert(out@ =~= prefix@ + key@);
        assert(out@.subrange(0, prefix@.len() as int) =~= prefix@);
        assert(out@.skip(prefix@.len() as int) =~= key@);
    }
    out
}

/// A key that begins with `prefix` is `prefix` followed by the rest of it.
pub proof fn lemma_split_prefix(pk: Seq<u8>, prefix: Seq<u8>)
    requires
        has_prefix(pk, prefix),
    ensures
        pk == prefix + pk.skip(prefix.len() as int),
{
    assert(pk =~= pk.subrange(0, prefix.len() as int) + pk.skip(prefix.len() as int));
}

/// Merges the changes of one view into its table.
pub fn apply_view(table: &mut ByteMap<Vec<u8>>, prefix: &[u8], changes: &ViewChanges)
    ensures
        final(table).wf(),
        final(table)@ == merged_table(old(table)@, prefix@, changes@),
{
    let ghost initial = table@;
    if changes.is_empty() {
        let cleared = drop_prefix(table, prefix);
        *table = cleared;
    }
    let ghost base = table@;
    let n: usize = changes.len();
    let ghost ks = changes.key_seq();
    let ghost vs = changes.value_seq();
    let mut j: usize = 0;
    while j < n
        invariant
            j <= n,
            n == ks.len(),
            ks == changes.key_seq(),
            vs == changes.value_seq(),
            changes.wf(),
            forall|pk: Seq<u8>|
                #![trigger table@.contains_key(pk)]
                #![trigger lookup(base, pk)]
                lookup(table@, pk) == if has_prefix(pk, prefix@) && (exists|i: int|
                    0 <= i < j && #[trigger] ks[i] == pk.skip(prefix@.len() as int)) {
                    vs[ks.index_of(pk.skip(prefix@.len() as int))]
                } else {
                    lookup(base, pk)
                },
        decreases n - j,
    {
        let key = changes.key_at(j);
        let physical = physical_key(prefix, key.as_slice());
        let ghost before = table@;
        match changes.change_at(j) {
            Change::Put(v) => {
                table.insert(physical, v.duplicate());
            },
            Change::Delete => {
                let _ = table.remove(physical.as_slice());
            },
        }
        proof {
            let plen = prefix@.len() as int;
            crate::byte_map::lemma_sorted_index(ks, j as int);
            assert forall|pk: Seq<u8>|
                #![trigger table@.contains_key(pk)]
                #![trigger lookup(base, pk)]
                lookup(table@, pk) == if has_prefix(pk, prefix@) && (exists|i: int|
                    0 <= i < j + 1 && #[trigger] ks[i] == pk.skip(plen)) {
                    vs[ks.index_of(pk.skip(plen))]
                } else {
                    lookup(base, pk)
                } by {
                if pk == physical@ {
                    assert(ks[j as int] == pk.skip(plen));
                } else {
                    assert(lookup(table@, pk) == lookup(before, pk));
                    if has_prefix(pk, prefix@) {
                        lemma_split_prefix(pk, prefix@);
                        assert(pk.skip(plen) != ks[j as int]);
                        if exists|i: int| 0 <= i < j + 1 && #[trigger] ks[i] == pk.skip(plen) {
                            let i = choose|i: int| 0 <= i < j + 1 && #[trigger] ks[i] == pk.skip(plen);
                            assert(i < j);
                        }
                    }
                }
            }
        }
        j += 1;
    }
    proof {
        let plen = prefix@.len() as int;
        let target = merged_table(initial, prefix@, changes@);
        assert forall|pk: Seq<u8>| lookup(table@, pk) == lookup(target, pk) by {
            assert(table@.contains_key(pk) == table@.contains_key(pk));
            if has_prefix(pk, prefix@) {
                let k = pk.skip(plen);
                if changes@.data.contains_key(k) {
                    let i = ks.index_of(k);
                    assert(ks[i] == k);
                    crate::byte_map::lemma_sorted_index(ks, i);
                } else {
                    if exists|i: int| 0 <= i < n && #[trigger] ks[i] == k {
                        let i = choose|i: int| 0 <= i < n && #[trigger] ks[i] == k;
                        crate::byte_map::lemma_sorted_index(ks, i);
                    }
                }
            }
        }
        assert forall|pk: Seq<u8>| table@.contains_key(pk) == target.contains_key(pk) by {
            assert(lookup(table@, pk) == lookup(target, pk));
        }
        assert forall|pk: Seq<u8>| table@.contains_key(pk) implies table@[pk] == target[pk] by {
            assert(lookup(table@, pk) == lookup(target, pk));
        }
        assert(table@ =~= target);
        use_type_invariant(&*table);
    }
}

/// A store in memory, lost when it is dropped. Its `merge` never fails.
pub struct TemporaryDB {
    tables: Arc<ByteMap<ByteMap<Vec<u8>>>>,
}

impl TemporaryDB {
    /// Creates a store that holds nothing.
    pub fn new() -> (r: TemporaryDB)
        ensures
            r.state() == Map::<Seq<u8>, Table>::empty(),
    {
        TemporaryDB { tables: Arc::new(ByteMap::new()) }
    }
}

impl Default for TemporaryDB {
    fn default() -> (r: TemporaryDB)
        ensures
            r.state() == Map::<Seq<u8>, Table>::empty(),
    {
        TemporaryDB::new()
    }
}

impl Database for TemporaryDB {
    closed spec fn state(&self) -> DbModel {
        self.tables@
    }

    fn snapshot(&self) -> (s: Snapshot) {
        Snapshot::from_tables(&self.tables)
    }

    fn fork(&self) -> (f: Fork) {
        Fork::new(self.snapshot())
    }

    fn merge(&mut self, patch: Patch) -> (r: Result<(), Error>)
        ensures
            r is Ok,
            same_tables(final(self).state(), merged(old(self).state(), patch.views())),
    {
        let mut tables: ByteMap<ByteMap<Vec<u8>>> = self.tables.duplicate();
        let ghost start = self.tables@;
        let n: usize = patch.len();
        let mut i: usize = 0;
        while i < n
            invariant
                i <= n,
                n == patch.views().len(),
                tables.wf(),
                same_tables(tables@, merged(start, patch.views().subrange(0, i as int))),
            decreases n - i,
        {
            let address = patch.address_at(i);
            let changes = patch.changes_at(i);
            let name = address.table_key();
            let ghost before = tables@;
            let mut table: ByteMap<Vec<u8>> = match tables.remove(name) {
                Some(t) => t,
                None => ByteMap::new(),
            };
            assert(table@ == table_of(before, name@));
            match address.bytes() {
                Some(prefix) => {
                    apply_view(&mut table, prefix, changes);
                },
                None => {
                    let empty: [u8; 0] = [];
                    assert(empty@ =~= Seq::<u8>::empty());
                    apply_view(&mut table, empty.as_slice(), changes);
                },
            }
            tables.insert(vstd::slice::slice_to_vec(name), table);
            proof {
                let views = patch.views();
                let done = views.subrange(0, i as int);
                let next = views.subrange(0, i + 1);
                assert(next.drop_last() =~= done);
                assert(next.last() == views[i as int]);
                let target = merged(start, next);
                let mid = merged(start, done);
                assert(target == merged_view(mid, views[i as int].0, views[i as int].1));
                assert forall|nm: Seq<u8>| table_of(tables@, nm) == table_of(target, nm) by {
                    assert(table_of(before, nm) == table_of(mid, nm));
                }
            }
            i += 1;
        }
        proof {
            assert(patch.views().subrange(0, n as int) =~= patch.views());
        }
        self.tables = Arc::new(tables);
        Ok(())
    }
}

} // verus!
