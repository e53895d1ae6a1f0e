//! Views: the keys of one index, read from a snapshot or from a fork.
//!
//! A view of a snapshot is read-only. A view of a fork carries a copy of
//! what the fork has recorded for the index and records further changes; the
//! fork takes them over when the view is handed back to it.

use core::marker::PhantomData;
use vstd::prelude::*;
use vstd::view::View as _;

use crate::address::{AddressModel, IndexAddress};
use crate::byte_map::Duplicate;
use crate::changes::{Change, ChangesModel, Mutation, SavedModel, ViewChanges};
use crate::db::{base_read, lookup, table_of, DbModel, Fork, Snapshot, Table};
use crate::index_metadata::{IndexMetadata, IndexType};
use crate::keys::{key_bytes, StorageKey};
use crate::lex::{
    compare, has_prefix, lemma_concat_order, lemma_lex_irreflexive, lemma_lex_le_transitive,
    lemma_lex_total, lemma_lex_transitive, lemma_prefix_contiguous, lex_le, lex_lt, starts_with,
    Order,
};
use crate::listing::{ascending, is_listing, pairs_view};
use crate::temporary_db::lemma_split_prefix;
use crate::values::StorageValue;

verus! {

/// What a fork holds besides what a view on it may change: its base, the
/// number of its saved states, the address of the view, and what was
/// recorded for every other address, with the saved states.
pub struct Rest {
    /// What the store held when the fork was made.
    pub base: DbModel,
    /// Number of states saved by `checkpoint` and not yet given up.
    pub depth: nat,
    /// The address of the view.
    pub address: AddressModel,
    /// What was recorded for each other address.
    pub others: Map<AddressModel, SavedModel>,
}

/// What the fork `fork` holds besides what a view at `address` may change.
pub open spec fn rest_of(fork: Fork, address: AddressModel) -> Rest {
    Rest {
        base: fork.base(),
        depth: fork.spec_depth(),
        address,
        others: Map::new(|a: AddressModel| a != address, |a: AddressModel| fork.saved_model(a)),
    }
}

/// What a view holds besides its snapshot: nothing, the changes recorded
/// on top of it, or the fork to which it writes through.
pub trait ChangeSet: Sized {
    /// The changes recorded; `None` for a view that cannot be written.
    spec fn spec_changes(&self) -> Option<ChangesModel>;

    /// The fork to which the view writes through, where it does.
    spec fn lender(&self) -> &mut Fork;

    /// What the fork holds besides what the view may change, where the
    /// view writes through to a fork.
    spec fn rest(&self) -> Rest;

    /// Returns the changes recorded, if there are any.
    fn as_ref(&self) -> (r: Option<&ViewChanges>)
        ensures
            r matches Some(c) ==> self.spec_changes() == Some(c@),
            r is None ==> self.spec_changes() is None || self.spec_changes() == Some(
                ChangesModel::pristine(),
            ),
    ;
}

impl ChangeSet for () {
    open spec fn spec_changes(&self) -> Option<ChangesModel> {
        None
    }

    open spec fn lender(&self) -> &mut Fork {
        arbitrary()
    }

    open spec fn rest(&self) -> Rest {
        arbitrary()
    }

    fn as_ref(&self) -> (r: Option<&ViewChanges>) {
        None
    }
}

impl ChangeSet for ViewChanges {
    open spec fn spec_changes(&self) -> Option<ChangesModel> {
        Some(self@)
    }

    open spec fn lender(&self) -> &mut Fork {
        arbitrary()
    }

    open spec fn rest(&self) -> Rest {
        arbitrary()
    }

    fn as_ref(&self) -> (r: Option<&ViewChanges>) {
        Some(self)
    }
}

/// What a view that writes through to a fork holds besides its snapshot:
/// the fork, and the address under which it writes.
pub struct ForkChanges<'a> {
    /// The fork to which the view writes through.
    pub fork: &'a mut Fork,
    /// The address of the view.
    pub address: IndexAddress,
}

impl<'a> ChangeSet for ForkChanges<'a> {
    open spec fn spec_changes(&self) -> Option<ChangesModel> {
        Some((*self.fork).changes_of(self.address@))
    }

    open spec fn lender(&self) -> &mut Fork {
        self.fork
    }

    open spec fn rest(&self) -> Rest {
        rest_of(*self.fork, self.address@)
    }

    fn as_ref(&self) -> (r: Option<&ViewChanges>) {
        Fork::changes(&*self.fork, &self.address)
    }
}

/// What can be written to: the changes of a view, held by the view itself
/// or by the fork to which it writes through.
pub trait Recorder: ChangeSet {
    /// What was recorded, with the saved states.
    spec fn spec_saved(&self) -> SavedModel;

    /// What was recorded is the current state of what was saved.
    proof fn lemma_current(&self)
        ensures
            self.spec_changes() == Some(self.spec_saved().current),
    ;

    /// Records that `key` holds `value`.
    fn record_put(&mut self, key: Vec<u8>, value: Vec<u8>)
        ensures
            final(self).spec_saved() == old(self).spec_saved().apply(Mutation::Put(key@, value@)),
            final(self).rest() == old(self).rest(),
            *final(final(self).lender()) == *final(old(self).lender()),
    ;

    /// Records that `key` holds nothing.
    fn record_remove(&mut self, key: Vec<u8>)
        ensures
            final(self).spec_saved() == old(self).spec_saved().apply(Mutation::Remove(key@)),
            final(self).rest() == old(self).rest(),
            *final(final(self).lender()) == *final(old(self).lender()),
    ;

    /// Records that the view holds nothing.
    fn record_clear(&mut self)
        ensures
            final(self).spec_saved() == old(self).spec_saved().apply(Mutation::Clear),
            final(self).rest() == old(self).rest(),
            *final(final(self).lender()) == *final(old(self).lender()),
    ;
}

impl Recorder for ViewChanges {
    open spec fn spec_saved(&self) -> SavedModel {
        self.model()
    }

    proof fn lemma_current(&self) {
    }

    fn record_put(&mut self, key: Vec<u8>, value: Vec<u8>) {
        self.put(key, value);
    }

    fn record_remove(&mut self, key: Vec<u8>) {
        self.remove(key);
    }

    fn record_clear(&mut self) {
        self.clear();
    }
}

impl<'a> Recorder for ForkChanges<'a> {
    open spec fn spec_saved(&self) -> SavedModel {
        (*self.fork).saved_model(self.address@)
    }

    proof fn lemma_current(&self) {
    }

    fn record_put(&mut self, key: Vec<u8>, value: Vec<u8>) {
        self.fork.put(&self.address, key, value);
        assert(self.rest().others =~= old(self).rest().others);
    }

    fn record_remove(&mut self, key: Vec<u8>) {
        self.fork.remove(&self.address, key);
        assert(self.rest().others =~= old(self).rest().others);
    }

    fn record_clear(&mut self) {
        self.fork.clear(&self.address);
        assert(self.rest().others =~= old(self).rest().others);
    }
}

/// What an index can be opened on: a snapshot, a fork that is read, or a
/// fork that is written.
pub trait IndexAccess: Sized {
    /// What a view of this access holds besides its snapshot.
    type Changes: ChangeSet;

    /// What the store held when the snapshot was taken.
    spec fn base(&self) -> DbModel;

    /// What was recorded for the view at `address`; `None` where nothing can
    /// be recorded.
    spec fn recorded(&self, address: AddressModel) -> Option<ChangesModel>;

    /// Whether what is written to a view of this access reaches a fork.
    spec fn writes(&self) -> bool;

    /// The fork that is written, where one is.
    spec fn lender(&self) -> &mut Fork;

    /// Returns the name under which every index of this access lies.
    fn root(&self) -> (r: &str)
        ensures
            r@.len() == 0,
    ;

    /// Returns the snapshot behind the access.
    fn snapshot(&self) -> (s: Snapshot)
        ensures
            s@ == self.base(),
    ;

    /// Registers `metadata` for the index at `address` where the access
    /// writes to a fork; does nothing where it does not.
    fn register(&mut self, address: &IndexAddress, metadata: &IndexMetadata)
        ensures
            final(self).base() == old(self).base(),
            final(self).writes() == old(self).writes(),
            forall|a: AddressModel|
                a != crate::index_metadata::metadata_address(address@)
                    ==> #[trigger] final(self).recorded(a) == old(self).recorded(a),
            !old(self).writes() ==> forall|a: AddressModel| #[trigger]
                final(self).recorded(a) == old(self).recorded(a),
            old(self).writes() ==> crate::index_metadata::registered_on(
                *final(self).lender(),
                address@,
                *metadata,
            ) && (*final(self).lender()).base() == (*old(self).lender()).base()
                && (*final(self).lender()).spec_depth() == (*old(self).lender()).spec_depth()
                && forall|a: AddressModel|
                a != crate::index_metadata::metadata_address(address@)
                    ==> #[trigger] (*final(self).lender()).saved_model(a)
                    == (*old(self).lender()).saved_model(a),
            *final(final(self).lender()) == *final(old(self).lender()),
    ;

    /// Returns what a view at `address` holds besides its snapshot.
    fn changes(self, address: &IndexAddress) -> (c: Self::Changes)
        ensures
            c.spec_changes() == self.recorded(address@),
            self.writes() ==> *c.lender() == *self.lender() && c.rest() == rest_of(
                *self.lender(),
                address@,
            ),
            *final(c.lender()) == *final(self.lender()),
    ;
}

impl<'a> IndexAccess for &'a Snapshot {
    type Changes = ();

    open spec fn base(&self) -> DbModel {
        self@
    }

    open spec fn recorded(&self, address: AddressModel) -> Option<ChangesModel> {
        None
    }

    open spec fn writes(&self) -> bool {
        false
    }

    open spec fn lender(&self) -> &mut Fork {
        arbitrary()
    }

    fn root(&self) -> (r: &str) {
        proof {
            reveal_strlit("");
        }
        ""
    }

    fn snapshot(&self) -> (s: Snapshot) {
        (*self).duplicate()
    }

    fn register(&mut self, address: &IndexAddress, metadata: &IndexMetadata) {
    }

    fn changes(self, address: &IndexAddress) -> (c: ()) {
        ()
    }
}

/// A fork that is read: a view opened on it holds a copy of what the fork
/// has recorded for the address, and what is written to the view stays
/// with the view.
impl<'a> IndexAccess for &'a Fork {
    type Changes = ViewChanges;

    open spec fn base(&self) -> DbModel {
        (*self).base()
    }

    open spec fn recorded(&self, address: AddressModel) -> Option<ChangesModel> {
        Some((*self).changes_of(address))
    }

    open spec fn writes(&self) -> bool {
        false
    }

    open spec fn lender(&self) -> &mut Fork {
        arbitrary()
    }

    fn root(&self) -> (r: &str) {
        proof {
            reveal_strlit("");
        }
        ""
    }

    fn snapshot(&self) -> (s: Snapshot) {
        (*self).snapshot().duplicate()
    }

    fn register(&mut self, address: &IndexAddress, metadata: &IndexMetadata) {
    }

    fn changes(self, address: &IndexAddress) -> (c: ViewChanges) {
        match (*self).changes(address) {
            Some(c) => c.detached(),
            None => ViewChanges::new(),
        }
    }
}

/// A fork that is written: what is written to an index opened on it
/// reaches the fork, and opening an index registers its kind.
pub struct Writer<'a> {
    /// The fork that is written.
    pub fork: &'a mut Fork,
}

impl Fork {
    /// Returns the fork as one that is written.
    pub fn writer(&mut self) -> (r: Writer<'_>)
        ensures
            *r.fork == *old(self),
            *final(r.fork) == *final(self),
    {
        Writer { fork: self }
    }
}

impl<'a> IndexAccess for Writer<'a> {
    type Changes = ForkChanges<'a>;

    open spec fn base(&self) -> DbModel {
        (*self.fork).base()
    }

    open spec fn recorded(&self, address: AddressModel) -> Option<ChangesModel> {
        Some((*self.fork).changes_of(address))
    }

    open spec fn writes(&self) -> bool {
        true
    }

    open spec fn lender(&self) -> &mut Fork {
        self.fork
    }

    fn root(&self) -> (r: &str) {
        proof {
            reveal_strlit("");
        }
        ""
    }

    fn snapshot(&self) -> (s: Snapshot) {
        Fork::snapshot(&*self.fork).duplicate()
    }

    fn register(&mut self, address: &IndexAddress, metadata: &IndexMetadata) {
        crate::refs::write_metadata(&mut *self.fork, address, metadata);
    }

    fn changes(self, address: &IndexAddress) -> (c: ForkChanges<'a>) {
        ForkChanges { fork: self.fork, address: address.duplicate() }
    }
}

/// What the index at `address` held in the store `db`, key by key.
pub open spec fn base_map(db: DbModel, address: AddressModel) -> Table {
    Map::new(
        |k: Seq<u8>| base_read(db, address, k) is Some,
        |k: Seq<u8>| base_read(db, address, k)->0,
    )
}

/// The table that `c` makes of `m`: each key reads as recorded, or as in
/// `m` where nothing was recorded for it and the view was not cleared.
pub open spec fn overlay(m: Table, c: ChangesModel) -> Table {
    Map::new(
        |k: Seq<u8>| c.read(k, lookup(m, k)) is Some,
        |k: Seq<u8>| c.read(k, lookup(m, k))->0,
    )
}

/// Whether `k` is the key of a pair of `ps` at position `i` or later.
pub open spec fn later(ps: Seq<(Seq<u8>, Seq<u8>)>, i: int, k: Seq<u8>) -> bool {
    exists|t: int| i <= t < ps.len() && (#[trigger] ps[t]).0 == k
}

/// Whether `k` stands in `ks` at position `j` or later.
pub open spec fn later_key(ks: Seq<Seq<u8>>, j: int, k: Seq<u8>) -> bool {
    exists|t: int| j <= t < ks.len() && #[trigger] ks[t] == k
}

/// Whether every key of `ps` comes before `k`.
pub open spec fn below(ps: Seq<(Seq<u8>, Seq<u8>)>, k: Seq<u8>) -> bool {
    forall|t: int| 0 <= t < ps.len() ==> lex_lt((#[trigger] ps[t]).0, k)
}

/// Merges the entries of the store with the changes recorded on top of
/// them, in one pass over both in the order of their keys: a recorded value
/// takes the place of a stored one, and a recorded deletion drops it.
fn merge_entries(
    base: &Vec<(Vec<u8>, Vec<u8>)>,
    changes: &ViewChanges,
    from: &[u8],
    Ghost(m): Ghost<Table>,
) -> (out: Vec<(Vec<u8>, Vec<u8>)>)
    requires
        is_listing(pairs_view(base@), m, from@),
        changes@.emptied ==> m == Map::<Seq<u8>, Seq<u8>>::empty(),
    ensures
        is_listing(pairs_view(out@), overlay(m, changes@), from@),
{
    let nb: usize = base.len();
    let nc: usize = changes.len();
    let j0: usize = changes.lower_bound(from);
    let ghost bs = pairs_view(base@);
    let ghost ks = changes.key_seq();
    let ghost vs = changes.value_seq();
    let ghost c = changes@;
    let ghost target = overlay(m, c);
    let mut out: Vec<(Vec<u8>, Vec<u8>)> = Vec::new();
    let mut i: usize = 0;
    let mut j: usize = j0;
    proof {
        if 0 < nb {
            assert forall|t: int| 0 <= t < j0 implies lex_lt(#[trigger] ks[t], bs[0].0) by {
                lemma_lex_le_transitive(ks[t], from@, bs[0].0);
            }
        }
        assert forall|k: Seq<u8>| #[trigger]
            target.contains_key(k) && lex_le(from@, k) implies later(pairs_view(out@), 0, k)
            || later(bs, 0, k) || later_key(ks, j0 as int, k) by {
            if c.data.contains_key(k) {
                let p = ks.index_of(k);
                assert(ks[p] == k);
                lemma_lex_total(k, from@);
                assert(p >= j0);
            } else {
                assert(m.contains_key(k));
                let t = choose|t: int| 0 <= t < bs.len() && (#[trigger] bs[t]).0 == k;
                assert(bs[t].0 == k);
            }
        }
    }
    while i < nb || j < nc
        invariant
            i <= nb,
            j0 <= j <= nc,
            nb == base@.len(),
            nc == ks.len(),
            bs == pairs_view(base@),
            ks == changes.key_seq(),
            vs == changes.value_seq(),
            c == changes@,
            target == overlay(m, c),
            changes.wf(),
            is_listing(bs, m, from@),
            c.emptied ==> m == Map::<Seq<u8>, Seq<u8>>::empty(),
            forall|t: int| 0 <= t < j0 ==> lex_lt(#[trigger] ks[t], from@),
            forall|t: int| j0 <= t < nc ==> lex_le(from@, #[trigger] ks[t]),
            ascending(pairs_view(out@)),
            forall|t: int|
                0 <= t < out@.len() ==> target.contains_key((#[trigger] pairs_view(out@)[t]).0)
                    && target[pairs_view(out@)[t].0] == pairs_view(out@)[t].1 && lex_le(
                    from@,
                    pairs_view(out@)[t].0,
                ),
            i < nb ==> below(pairs_view(out@), bs[i as int].0),
            j < nc ==> below(pairs_view(out@), ks[j as int]),
            forall|k: Seq<u8>|
                #[trigger] target.contains_key(k) && lex_le(from@, k) ==> later(
                    pairs_view(out@),
                    0,
                    k,
                ) || later(bs, i as int, k) || later_key(ks, j as int, k),
            i < nb ==> forall|t: int| 0 <= t < j ==> lex_lt(#[trigger] ks[t], bs[i as int].0),
            j < nc ==> forall|t: int| 0 <= t < i ==> lex_lt((#[trigger] bs[t]).0, ks[j as int]),
        decreases (nb - i) + (nc - j),
    {
        let ghost os = pairs_view(out@);
        let take_base: bool;
        let take_change: bool;
        if i < nb && j < nc {
            let ord = compare(base[i].0.as_slice(), changes.key_at(j).as_slice());
            proof {
                assert(bs[i as int].0 == base@[i as int].0@);
                lemma_lex_total(bs[i as int].0, ks[j as int]);
            }
            take_base = !(ord == Order::Greater);
            take_change = !(ord == Order::Less);
        } else {
            take_base = i < nb;
            take_change = j < nc;
        }
        proof {
            if j < nc {
                crate::byte_map::lemma_sorted_index(ks, j as int);
            }
            if i < nb {
                assert(bs[i as int].0 == base@[i as int].0@);
                assert(bs[i as int].1 == base@[i as int].1@);
            }
        }
        if take_change {
            let key = changes.key_at(j);
            let ghost k = ks[j as int];
            proof {
                crate::byte_map::lemma_sorted_index(ks, j as int);
                assert(c.data.contains_key(k));
                assert(c.data[k] == vs[j as int]);
            }
            match changes.change_at(j) {
                Change::Put(v) => {
                    out.push((key.duplicate(), v.duplicate()));
                    proof {
                        let ns = pairs_view(out@);
                        assert(ns =~= os.push((k, v@)));
                        assert(target.contains_key(k) && target[k] == v@);
                        assert forall|a: int, b: int| 0 <= a < b < ns.len() implies lex_lt(
                            (#[trigger] ns[a]).0,
                            (#[trigger] ns[b]).0,
                        ) by {
                            if b == ns.len() - 1 {
                                assert(ns[a] == os[a]);
                            } else {
                                assert(ns[a] == os[a]);
                                assert(ns[b] == os[b]);
                            }
                        }
                        assert forall|t: int| 0 <= t < ns.len() implies target.contains_key(
                            (#[trigger] ns[t]).0,
                        ) && target[ns[t].0] == ns[t].1 && lex_le(from@, ns[t].0) by {
                            if t < os.len() {
                                assert(ns[t] == os[t]);
                            }
                        }
                    }
                },
                Change::Delete => {
                    proof {
                        assert(!target.contains_key(k));
                    }
                },
            }
        } else {
            let ghost k = bs[i as int].0;
            proof {
                // Nothing was recorded for this key.
                if c.data.contains_key(k) {
                    let p = ks.index_of(k);
                    assert(ks[p] == k);
                    lemma_lex_irreflexive(k);
                    lemma_lex_total(k, from@);
                    if p < j {
                        assert(lex_lt(ks[p], k));
                    } else {
                        assert(j < nc);
                        if p > j {
                            assert(lex_lt(ks[j as int], ks[p]));
                            lemma_lex_transitive(k, ks[j as int], ks[p]);
                        }
                    }
                    assert(false);
                }
                assert(m.contains_key(k));
                assert(!c.emptied);
                assert(target.contains_key(k) && target[k] == bs[i as int].1);
            }
            out.push((base[i].0.duplicate(), base[i].1.duplicate()));
            proof {
                let ns = pairs_view(out@);
                assert(ns =~= os.push(bs[i as int]));
                assert forall|a: int, b: int| 0 <= a < b < ns.len() implies lex_lt(
                    (#[trigger] ns[a]).0,
                    (#[trigger] ns[b]).0,
                ) by {
                    if b == ns.len() - 1 {
                        assert(ns[a] == os[a]);
                    } else {
                        assert(ns[a] == os[a]);
                        assert(ns[b] == os[b]);
                    }
                }
                assert forall|t: int| 0 <= t < ns.len() implies target.contains_key(
                    (#[trigger] ns[t]).0,
                ) && target[ns[t].0] == ns[t].1 && lex_le(from@, ns[t].0) by {
                    if t < os.len() {
                        assert(ns[t] == os[t]);
                    }
                }
            }
        }
        let ghost i0 = i as int;
        let ghost j1 = j as int;
        if take_base {
            i += 1;
        }
        if take_change {
            j += 1;
        }
        proof {
            let ns = pairs_view(out@);
            // The key that was dealt with in this round.
            let k = if take_change {
                ks[j1]
            } else {
                bs[i0].0
            };
            if take_base {
                assert(bs[i0].0 == k || !take_change);
            }
            assert forall|t: int| 0 <= t < os.len() implies ns[t] == os[t] by {}
            if i < nb {
                assert forall|t: int| 0 <= t < ns.len() implies lex_lt(
                    (#[trigger] ns[t]).0,
                    bs[i as int].0,
                ) by {
                    if t < os.len() {
                        if take_base {
                            assert(lex_lt(bs[i0].0, bs[i as int].0));
                            assert(lex_lt(os[t].0, bs[i0].0));
                            lemma_lex_transitive(os[t].0, bs[i0].0, bs[i as int].0);
                        }
                    } else {
                        if take_base {
                            assert(lex_lt(bs[i0].0, bs[i as int].0));
                        }
                    }
                }
                assert forall|t: int| 0 <= t < j implies lex_lt(#[trigger] ks[t], bs[i as int].0) by {
                    if take_base {
                        assert(lex_lt(bs[i0].0, bs[i as int].0));
                        if t < j1 {
                            lemma_lex_transitive(ks[t], bs[i0].0, bs[i as int].0);
                        }
                    }
                }
            }
            if j < nc {
                assert forall|t: int| 0 <= t < ns.len() implies lex_lt(
                    (#[trigger] ns[t]).0,
                    ks[j as int],
                ) by {
                    if take_change {
                        assert(lex_lt(ks[j1], ks[j as int]));
                        if t < os.len() {
                            lemma_lex_transitive(os[t].0, ks[j1], ks[j as int]);
                        } else if !take_base {
                        } else {
                        }
                    }
                }
                assert forall|t: int| 0 <= t < i implies lex_lt((#[trigger] bs[t]).0, ks[j as int]) by {
                    if take_change {
                        assert(lex_lt(ks[j1], ks[j as int]));
                        if t < i0 {
                            lemma_lex_transitive(bs[t].0, ks[j1], ks[j as int]);
                        }
                    } else {
                        if t == i0 {
                        }
                    }
                }
            }
            assert forall|x: Seq<u8>| #[trigger]
                target.contains_key(x) && lex_le(from@, x) implies later(ns, 0, x) || later(
                bs,
                i as int,
                x,
            ) || later_key(ks, j as int, x) by {
                if later(os, 0, x) {
                    let t = choose|t: int| 0 <= t < os.len() && (#[trigger] os[t]).0 == x;
                    assert(ns[t].0 == x);
                } else if later(bs, i0, x) {
                    let t = choose|t: int| i0 <= t < bs.len() && (#[trigger] bs[t]).0 == x;
                    if t == i0 && take_base {
                        assert(ns[ns.len() - 1].0 == x);
                    } else {
                        assert(bs[t].0 == x && i <= t);
                    }
                } else {
                    let t = choose|t: int| j1 <= t < ks.len() && #[trigger] ks[t] == x;
                    if t == j1 && take_change {
                        assert(ns[ns.len() - 1].0 == x);
                    } else {
                        assert(ks[t] == x && j <= t);
                    }
                }
            }
        }
    }
    proof {
        let ns = pairs_view(out@);
        assert forall|x: Seq<u8>| target.contains_key(x) && lex_le(from@, x) implies exists|t: int|
            0 <= t < ns.len() && (#[trigger] ns[t]).0 == x by {
            assert(later(ns, 0, x) || later(bs, i as int, x) || later_key(ks, j as int, x));
        }
    }
    out
}

/// The keys of one index, read through a snapshot and what was recorded on
/// top of it.
pub struct View<C: ChangeSet> {
    /// The address of the index.
    pub address: IndexAddress,
    /// The snapshot through which the view reads.
    pub snapshot: Snapshot,
    /// What was recorded for the index.
    pub changes: C,
}

impl<C: ChangeSet> View<C> {
    /// What the store held when the snapshot of the view was taken.
    pub open spec fn base(&self) -> DbModel {
        self.snapshot@
    }

    /// The address of the index.
    pub open spec fn addr(&self) -> AddressModel {
        self.address@
    }

    /// What was recorded for the index; `None` for a view that cannot be
    /// written.
    pub open spec fn recorded(&self) -> Option<ChangesModel> {
        self.changes.spec_changes()
    }

    /// What the view reads under `key`: what was recorded for the key;
    /// nothing where the view was cleared since; else what the store held.
    pub open spec fn read(&self, key: Seq<u8>) -> Option<Seq<u8>> {
        let b = base_read(self.base(), self.addr(), key);
        match self.recorded() {
            Some(c) => c.read(key, b),
            None => b,
        }
    }

    /// Whether something was recorded for `key`, a value or a deletion.
    pub open spec fn recorded_key(&self, key: Seq<u8>) -> bool {
        self.recorded() matches Some(c) && c.data.contains_key(key)
    }

    /// What the view holds, key by key.
    pub open spec fn contents(&self) -> Table {
        Map::new(|k: Seq<u8>| self.read(k) is Some, |k: Seq<u8>| self.read(k)->0)
    }

    /// Creates the view of the index at `address` on `index_access`.
    pub fn new<T: IndexAccess<Changes = C>>(index_access: T, address: IndexAddress) -> (r: View<C>)
        ensures
            r.addr() == address@,
            r.base() == index_access.base(),
            r.recorded() == index_access.recorded(address@),
            index_access.writes() ==> *r.changes.lender() == *index_access.lender()
                && r.changes.rest() == rest_of(*index_access.lender(), address@),
            *final(r.changes.lender()) == *final(index_access.lender()),
    {
        let snapshot = index_access.snapshot();
        let changes = index_access.changes(&address);
        View { address, snapshot, changes }
    }

    /// Returns the address of the index.
    pub fn address(&self) -> (r: &IndexAddress)
        ensures
            r@ == self.addr(),
    {
        &self.address
    }

    /// Gives up the view for what it has recorded.
    pub fn into_changes(self) -> (r: C)
        ensures
            r.spec_changes() == self.recorded(),
    {
        self.changes
    }

    /// Returns the snapshot through which the view reads.
    pub fn snapshot(&self) -> (r: &Snapshot)
        ensures
            r@ == self.base(),
    {
        &self.snapshot
    }

    /// Returns what the view holds under the raw key `key`.
    pub fn get_bytes(&self, key: &[u8]) -> (r: Option<Vec<u8>>)
        ensures
            r is Some <==> self.read(key@) is Some,
            r matches Some(v) ==> Some(v@) == self.read(key@),
    {
        match self.changes.as_ref() {
            Some(changes) => {
                match changes.get(key) {
                    Some(Change::Put(v)) => {
                        return Some(v.duplicate());
                    },
                    Some(Change::Delete) => {
                        return None;
                    },
                    None => {},
                }
                if changes.is_empty() {
                    return None;
                }
            },
            None => {},
        }
        let (name, physical) = self.address.keyed(key);
        self.snapshot.get(name, physical.as_slice())
    }

    /// Returns `true` if the view holds something under the raw key `key`.
    pub fn contains_raw_key(&self, key: &[u8]) -> (r: bool)
        ensures
            r == self.read(key@) is Some,
    {
        match self.changes.as_ref() {
            Some(changes) => {
                match changes.get(key) {
                    Some(Change::Put(_)) => {
                        return true;
                    },
                    Some(Change::Delete) => {
                        return false;
                    },
                    None => {},
                }
                if changes.is_empty() {
                    return false;
                }
            },
            None => {},
        }
        let (name, physical) = self.address.keyed(key);
        self.snapshot.contains(name, physical.as_slice())
    }

    /// Returns the value held under `key`: `None` where nothing is held, or
    /// where what is held is no encoding of a `V`.
    pub fn get<K: StorageKey, V: StorageValue>(&self, key: &K) -> (r: Option<V>)
        ensures
            r is Some <==> (self.read(key.spec_bytes()) matches Some(b) && V::is_encoding(b)),
            r matches Some(v) ==> Some(v.spec_bytes()) == self.read(key.spec_bytes()),
    {
        let raw = key_bytes(key);
        match self.get_bytes(raw.as_slice()) {
            Some(bytes) => V::from_bytes(bytes.as_slice()),
            None => None,
        }
    }

    /// Returns `true` if the view holds something under `key`.
    pub fn contains<K: StorageKey>(&self, key: &K) -> (r: bool)
        ensures
            r == self.read(key.spec_bytes()) is Some,
    {
        let raw = key_bytes(key);
        self.contains_raw_key(raw.as_slice())
    }
}

impl<C: ChangeSet> View<C> {
    /// Returns the entries that the store holds for the index, with keys
    /// that do not come before `from`, in ascending order. The keys come
    /// without the family bytes.
    fn snapshot_entries(&self, from: &[u8]) -> (r: Vec<(Vec<u8>, Vec<u8>)>)
        ensures
            is_listing(pairs_view(r@), base_map(self.base(), self.addr()), from@),
    {
        let (name, start) = self.address.keyed(from);
        let prefix: Vec<u8> = match self.address.bytes() {
            Some(b) => vstd::slice::slice_to_vec(b),
            None => Vec::new(),
        };
        let plen: usize = prefix.len();
        let raw = self.snapshot.iter(name, start.as_slice());
        let n: usize = raw.len();
        let ghost rs = pairs_view(raw@);
        let ghost table = table_of(self.base(), self.addr().table());
        let ghost target = base_map(self.base(), self.addr());
        proof {
            assert(prefix@ =~= self.addr().prefix());
            assert(start@ == prefix@ + from@);
        }
        let mut out: Vec<(Vec<u8>, Vec<u8>)> = Vec::new();
        let mut i: usize = 0;
        let mut going: bool = true;
        while going && i < n
            invariant
                i <= n,
                n == raw@.len(),
                rs == pairs_view(raw@),
                plen == prefix@.len(),
                out@.len() == i,
                is_listing(rs, table, prefix@ + from@),
                !going ==> i < n && !has_prefix(rs[i as int].0, prefix@),
                forall|t: int|
                    0 <= t < i ==> has_prefix((#[trigger] rs[t]).0, prefix@) && pairs_view(
                        out@,
                    )[t].0 == rs[t].0.skip(plen as int) && pairs_view(out@)[t].1 == rs[t].1,
            decreases n - i, going as int,
        {
            let ghost os = pairs_view(out@);
            proof {
                assert(rs[i as int].0 == raw@[i as int].0@);
                assert(rs[i as int].1 == raw@[i as int].1@);
            }
            if starts_with(raw[i].0.as_slice(), prefix.as_slice()) {
                let key: &[u8] = vstd::slice::slice_subrange(raw[i].0.as_slice(), plen, raw[i].0.len());
                out.push((vstd::slice::slice_to_vec(key), raw[i].1.duplicate()));
                proof {
                    let ns = pairs_view(out@);
                    assert(ns =~= os.push((rs[i as int].0.skip(plen as int), rs[i as int].1)));
                    assert forall|t: int| 0 <= t < i + 1 implies has_prefix(
                        (#[trigger] rs[t]).0,
                        prefix@,
                    ) && ns[t].0 == rs[t].0.skip(plen as int) && ns[t].1 == rs[t].1 by {
                        if t < i {
                            assert(ns[t] == os[t]);
                        }
                    }
                }
                i += 1;
            } else {
                going = false;
            }
        }
        proof {
            let ns = pairs_view(out@);
            let p = prefix@;
            assert forall|t: int| 0 <= t < ns.len() implies target.contains_key(
                (#[trigger] ns[t]).0,
            ) && target[ns[t].0] == ns[t].1 && lex_le(from@, ns[t].0) by {
                assert(has_prefix(rs[t].0, p));
                lemma_split_prefix(rs[t].0, p);
                lemma_concat_order(p, from@, ns[t].0);
            }
            assert forall|a: int, b: int| 0 <= a < b < ns.len() implies lex_lt(
                (#[trigger] ns[a]).0,
                (#[trigger] ns[b]).0,
            ) by {
                assert(has_prefix(rs[a].0, p));
                assert(has_prefix(rs[b].0, p));
                lemma_split_prefix(rs[a].0, p);
                lemma_split_prefix(rs[b].0, p);
                lemma_concat_order(p, ns[a].0, ns[b].0);
            }
            assert forall|k: Seq<u8>| target.contains_key(k) && lex_le(from@, k) implies exists|
                t: int,
            |
                0 <= t < ns.len() && (#[trigger] ns[t]).0 == k by {
                let pk = p + k;
                lemma_concat_order(p, from@, k);
                assert(table.contains_key(pk));
                let t = choose|t: int| 0 <= t < rs.len() && (#[trigger] rs[t]).0 == pk;
                assert(pk.subrange(0, p.len() as int) =~= p);
                assert(pk.skip(p.len() as int) =~= k);
                if t >= i {
                    // The entry at which the walk stopped lies between two
                    // keys of the index, so it is one too.
                    let stop = rs[i as int].0;
                    if t > i {
                        assert(lex_lt(rs[i as int].0, rs[t].0));
                    }
                    assert((p + from@).subrange(0, p.len() as int) =~= p);
                    lemma_prefix_contiguous(p, p + from@, stop, pk);
                    assert(false);
                }
                assert(ns[t].0 == k);
            }
        }
        out
    }

    /// Returns the entries of the view with raw keys that do not come
    /// before `from`, in ascending order of the keys.
    pub fn iter_bytes(&self, from: &[u8]) -> (r: Vec<(Vec<u8>, Vec<u8>)>)
        ensures
            is_listing(pairs_view(r@), self.contents(), from@),
    {
        match self.changes.as_ref() {
            None => {
                let r = self.snapshot_entries(from);
                assert(self.contents() =~= base_map(self.base(), self.addr()));
                r
            },
            Some(changes) => {
                let ghost m = if changes@.emptied {
                    Map::<Seq<u8>, Seq<u8>>::empty()
                } else {
                    base_map(self.base(), self.addr())
                };
                let base: Vec<(Vec<u8>, Vec<u8>)> = if changes.is_empty() {
                    Vec::new()
                } else {
                    self.snapshot_entries(from)
                };
                let r = merge_entries(&base, changes, from, Ghost(m));
                assert(self.contents() =~= overlay(m, changes@));
                r
            },
        }
    }

    /// Returns the first entry that the store holds for the index, with a
    /// key that does not come before `from` and for which nothing was
    /// recorded. The key comes without the family bytes.
    fn first_unshadowed(&self, from: &[u8]) -> (r: Option<(Vec<u8>, Vec<u8>)>)
        ensures
            r matches Some(e) ==> base_read(self.base(), self.addr(), e.0@) == Some(e.1@)
                && lex_le(from@, e.0@) && !self.recorded_key(e.0@) && forall|x: Seq<u8>|
                base_read(self.base(), self.addr(), x) is Some && lex_le(from@, x)
                    && !self.recorded_key(x) ==> lex_le(e.0@, x),
            r is None ==> forall|x: Seq<u8>|
                base_read(self.base(), self.addr(), x) is Some && lex_le(from@, x)
                    ==> self.recorded_key(x),
    {
        let (name, start) = self.address.keyed(from);
        let prefix: Vec<u8> = match self.address.bytes() {
            Some(b) => vstd::slice::slice_to_vec(b),
            None => Vec::new(),
        };
        let plen: usize = prefix.len();
        proof {
            assert(prefix@ =~= self.addr().prefix());
            assert((prefix@ + from@).subrange(0, plen as int) =~= prefix@);
        }
        match self.snapshot.table(name.as_bytes()) {
            None => None,
            Some(t) => {
                proof {
                    t.lemma_view();
                }
                let n: usize = t.len();
                let lb: usize = t.lower_bound(start.as_slice());
                let ghost ks = t.key_seq();
                let ghost p = prefix@;
                let mut i: usize = lb;
                while i < n
                    invariant
                        lb <= i <= n,
                        n == ks.len(),
                        ks == t.key_seq(),
                        t.wf(),
                        t@ == table_of(self.base(), self.addr().table()),
                        p == prefix@,
                        p == self.addr().prefix(),
                        plen == p.len(),
                        start@ == p + from@,
                        has_prefix(start@, p),
                        forall|u: int| 0 <= u < lb ==> lex_lt(#[trigger] ks[u], start@),
                        forall|u: int| lb <= u < n ==> lex_le(start@, #[trigger] ks[u]),
                        forall|u: int|
                            lb <= u < i ==> has_prefix(#[trigger] ks[u], p) && self.recorded_key(
                                ks[u].skip(plen as int),
                            ),
                    decreases n - i,
                {
                    let key = t.key_at(i);
                    if !starts_with(key.as_slice(), prefix.as_slice()) {
                        proof {
                            assert forall|x: Seq<u8>|
                                base_read(self.base(), self.addr(), x) is Some && lex_le(from@, x)
                                implies self.recorded_key(x) by {
                                let pk = p + x;
                                lemma_concat_order(p, from@, x);
                                assert(pk.subrange(0, plen as int) =~= p);
                                assert(pk.skip(plen as int) =~= x);
                                let u = ks.index_of(pk);
                                assert(ks[u] == pk);
                                lemma_lex_total(pk, start@);
                                lemma_lex_irreflexive(pk);
                                if u >= i {
                                    if u > i {
                                        assert(lex_lt(ks[i as int], ks[u]));
                                    }
                                    lemma_prefix_contiguous(p, start@, ks[i as int], pk);
                                }
                            }
                        }
                        return None;
                    }
                    let stripped: &[u8] = vstd::slice::slice_subrange(
                        key.as_slice(),
                        plen,
                        key.len(),
                    );
                    let shadowed: bool = match self.changes.as_ref() {
                        Some(c) => c.get(stripped).is_some(),
                        None => false,
                    };
                    proof {
                        assert(stripped@ =~= ks[i as int].skip(plen as int));
                    }
                    if !shadowed {
                        let found_key = vstd::slice::slice_to_vec(stripped);
                        let found_value = t.value_at(i).duplicate();
                        proof {
                            let k = ks[i as int];
                            lemma_split_prefix(k, p);
                            lemma_concat_order(p, from@, stripped@);
                            assert forall|x: Seq<u8>|
                                base_read(self.base(), self.addr(), x) is Some && lex_le(from@, x)
                                    && !self.recorded_key(x) implies lex_le(stripped@, x) by {
                                let pk = p + x;
                                lemma_concat_order(p, from@, x);
                                lemma_concat_order(p, stripped@, x);
                                assert(pk.subrange(0, plen as int) =~= p);
                                assert(pk.skip(plen as int) =~= x);
                                let u = ks.index_of(pk);
                                assert(ks[u] == pk);
                                lemma_lex_total(pk, start@);
                                lemma_lex_irreflexive(pk);
                                if u > i {
                                    assert(lex_lt(ks[i as int], ks[u]));
                                }
                            }
                        }
                        return Some((found_key, found_value));
                    }
                    i += 1;
                }
                proof {
                    assert forall|x: Seq<u8>|
                        base_read(self.base(), self.addr(), x) is Some && lex_le(
                            from@,
                            x,
                        ) implies self.recorded_key(x) by {
                        let pk = p + x;
                        lemma_concat_order(p, from@, x);
                        assert(pk.subrange(0, plen as int) =~= p);
                        assert(pk.skip(plen as int) =~= x);
                        let u = ks.index_of(pk);
                        assert(ks[u] == pk);
                        lemma_lex_total(pk, start@);
                        lemma_lex_irreflexive(pk);
                    }
                }
                None
            },
        }
    }

    /// Returns the first key for which a value was recorded and that does
    /// not come before `from`, with that value.
    fn first_put(&self, from: &[u8]) -> (r: Option<(Vec<u8>, Vec<u8>)>)
        ensures
            r matches Some(e) ==> self.recorded_key(e.0@) && self.read(e.0@) == Some(e.1@)
                && lex_le(from@, e.0@),
            forall|x: Seq<u8>|
                self.recorded_key(x) && #[trigger] self.read(x) is Some && lex_le(from@, x) ==> (r
                    matches Some(e) && lex_le(e.0@, x)),
    {
        match self.changes.as_ref() {
            Some(c) => {
                let nc: usize = c.len();
                let j0: usize = c.lower_bound(from);
                let ghost ks = c.key_seq();
                let ghost vs = c.value_seq();
                let mut put: Option<(Vec<u8>, Vec<u8>)> = None;
                let mut j: usize = j0;
                while j < nc && put.is_none()
                    invariant
                        j0 <= j <= nc,
                        nc == ks.len(),
                        ks == c.key_seq(),
                        vs == c.value_seq(),
                        c.wf(),
                        put is None ==> forall|u: int| j0 <= u < j ==> #[trigger] vs[u] is None,
                        put matches Some(e) ==> j0 < j && vs[j - 1] == Some(e.1@) && ks[j - 1]
                            == e.0@ && forall|u: int| j0 <= u < j - 1 ==> #[trigger] vs[u] is None,
                    decreases nc - j,
                {
                    match c.change_at(j) {
                        Change::Put(v) => {
                            put = Some((c.key_at(j).duplicate(), v.duplicate()));
                        },
                        Change::Delete => {},
                    }
                    j += 1;
                }
                proof {
                    assert forall|x: Seq<u8>|
                        self.recorded_key(x) && #[trigger] self.read(x) is Some && lex_le(
                            from@,
                            x,
                        ) implies (put matches Some(e) && lex_le(e.0@, x)) by {
                        let u = ks.index_of(x);
                        assert(ks[u] == x);
                        crate::byte_map::lemma_sorted_index(ks, u);
                        lemma_lex_total(x, from@);
                        lemma_lex_irreflexive(x);
                        assert(u >= j0);
                        if put is None {
                            assert(vs[u] is None);
                        } else {
                            if u < j - 1 {
                                assert(vs[u] is None);
                            } else if u > j - 1 {
                                assert(lex_lt(ks[j - 1], ks[u]));
                            }
                        }
                    }
                    if put is Some {
                        crate::byte_map::lemma_sorted_index(ks, j - 1);
                        lemma_lex_total(ks[j - 1], from@);
                    }
                }
                put
            },
            None => None,
        }
    }

    /// Returns `true` if the view was cleared since the snapshot was taken.
    pub fn is_emptied(&self) -> (r: bool)
        ensures
            r == (self.recorded() matches Some(c) && c.emptied),
    {
        match self.changes.as_ref() {
            Some(c) => c.is_empty(),
            None => false,
        }
    }

    /// Returns the first entry of the view whose raw key does not come
    /// before `from`.
    pub fn first_from(&self, from: &[u8]) -> (r: Option<(Vec<u8>, Vec<u8>)>)
        ensures
            r matches Some(e) ==> self.read(e.0@) == Some(e.1@) && lex_le(from@, e.0@)
                && forall|x: Seq<u8>|
                #[trigger] self.read(x) is Some && lex_le(from@, x) ==> lex_le(e.0@, x),
            r is None ==> forall|x: Seq<u8>| lex_le(from@, x) ==> #[trigger] self.read(x) is None,
    {
        let put = self.first_put(from);
        let stored: Option<(Vec<u8>, Vec<u8>)> = if self.is_emptied() {
            None
        } else {
            self.first_unshadowed(from)
        };
        match (put, stored) {
            (Some(a), Some(b)) => {
                let ord = compare(a.0.as_slice(), b.0.as_slice());
                proof {
                    lemma_lex_total(a.0@, b.0@);
                    assert forall|x: Seq<u8>| #[trigger]
                        self.read(x) is Some && lex_le(from@, x) implies lex_le(
                        if ord == Order::Less {
                            a.0@
                        } else {
                            b.0@
                        },
                        x,
                    ) by {
                        if self.recorded_key(x) {
                            assert(lex_le(a.0@, x));
                            if ord != Order::Less {
                                lemma_lex_le_transitive(b.0@, a.0@, x);
                            }
                        } else {
                            assert(lex_le(b.0@, x));
                            if ord == Order::Less {
                                lemma_lex_le_transitive(a.0@, b.0@, x);
                            }
                        }
                    }
                }
                if ord == Order::Less {
                    Some(a)
                } else {
                    Some(b)
                }
            },
            (Some(a), None) => Some(a),
            (None, Some(b)) => Some(b),
            (None, None) => None,
        }
    }

    /// Returns an iterator over the entries of the view whose raw keys begin
    /// with the encoding of `subprefix`, in ascending order of the keys.
    pub fn iter<P: StorageKey, K: StorageKey, V: StorageValue>(&self, subprefix: &P) -> (r: Iter<
        K,
        V,
    >)
        ensures
            r.spec_prefix() == subprefix.spec_bytes(),
            is_listing(r.pending(), self.contents(), subprefix.spec_bytes()),
    {
        let iter_prefix = key_bytes(subprefix);
        let entries = self.iter_bytes(iter_prefix.as_slice());
        Iter::new(entries, iter_prefix)
    }

    /// Returns an iterator over the entries of the view from the key `from`
    /// on, in ascending order of the keys, for as long as the raw keys begin
    /// with the encoding of `subprefix`.
    pub fn iter_from<P: StorageKey, F: StorageKey, K: StorageKey, V: StorageValue>(
        &self,
        subprefix: &P,
        from: &F,
    ) -> (r: Iter<K, V>)
        ensures
            r.spec_prefix() == subprefix.spec_bytes(),
            is_listing(r.pending(), self.contents(), from.spec_bytes()),
    {
        let iter_prefix = key_bytes(subprefix);
        let iter_from = key_bytes(from);
        let entries = self.iter_bytes(iter_from.as_slice());
        Iter::new(entries, iter_prefix)
    }
}

/// An iterator over the entries of a view. It ends at the first entry whose
/// raw key does not begin with the prefix given, or that cannot be decoded.
pub struct Iter<K, V> {
    entries: Vec<(Vec<u8>, Vec<u8>)>,
    position: usize,
    prefix: Vec<u8>,
    ended: bool,
    _k: PhantomData<K>,
    _v: PhantomData<V>,
}

impl<K: StorageKey, V: StorageValue> Iter<K, V> {
    /// The raw entries that the iterator has not looked at yet; none once
    /// it has ended.
    pub closed spec fn pending(&self) -> Seq<(Seq<u8>, Seq<u8>)> {
        if self.ended || self.position >= self.entries@.len() {
            Seq::empty()
        } else {
            pairs_view(self.entries@).skip(self.position as int)
        }
    }

    /// The bytes with which the raw key of every entry handed out begins.
    pub closed spec fn spec_prefix(&self) -> Seq<u8> {
        self.prefix@
    }

    /// Whether the iterator hands out the raw entry `(key, value)`.
    pub open spec fn accepts(&self, key: Seq<u8>, value: Seq<u8>) -> bool {
        has_prefix(key, self.spec_prefix()) && K::is_encoding(key) && V::is_encoding(value)
    }

    /// Creates an iterator over `entries` that ends where a key does not
    /// begin with `prefix`.
    pub fn new(entries: Vec<(Vec<u8>, Vec<u8>)>, prefix: Vec<u8>) -> (r: Iter<K, V>)
        ensures
            r.pending() == pairs_view(entries@),
            r.spec_prefix() == prefix@,
    {
        let r = Iter { entries, position: 0, prefix, ended: false, _k: PhantomData, _v: PhantomData };
        assert(r.pending() =~= pairs_view(entries@));
        r
    }

    /// Ends the iteration: nothing is handed out from now on.
    pub fn stop(&mut self)
        ensures
            final(self).spec_prefix() == old(self).spec_prefix(),
            final(self).pending().len() == 0,
    {
        self.ended = true;
    }

    /// Hands out the next entry, decoded; `None` at the end. The end is
    /// reached where no entry is left, and where the next raw entry is not
    /// accepted: nothing is handed out after that.
    pub fn next(&mut self) -> (r: Option<(K, V)>)
        ensures
            final(self).spec_prefix() == old(self).spec_prefix(),
            old(self).pending().len() > 0 && old(self).accepts(
                old(self).pending()[0].0,
                old(self).pending()[0].1,
            ) ==> final(self).pending() == old(self).pending().drop_first() && (r matches Some(e)
                && e.0.spec_bytes() == old(self).pending()[0].0 && e.1.spec_bytes() == old(
                self,
            ).pending()[0].1),
            !(old(self).pending().len() > 0 && old(self).accepts(
                old(self).pending()[0].0,
                old(self).pending()[0].1,
            )) ==> r is None && final(self).pending().len() == 0,
    {
        if self.ended || self.position >= self.entries.len() {
            self.ended = true;
            return None;
        }
        let ghost before = self.pending();
        proof {
            assert(before[0] == pairs_view(self.entries@)[self.position as int]);
        }
        let i: usize = self.position;
        if starts_with(self.entries[i].0.as_slice(), self.prefix.as_slice()) {
            match K::read(self.entries[i].0.as_slice()) {
                Some(k) => match V::from_bytes(self.entries[i].1.as_slice()) {
                    Some(v) => {
                        self.position = i + 1;
                        proof {
                            assert(self.pending() =~= before.drop_first());
                        }
                        return Some((k, v));
                    },
                    None => {},
                },
                None => {},
            }
        }
        self.ended = true;
        None
    }
}

/// Whether `changes` is what a view holds that was opened at `address` on
/// `access` as `metadata`: where the access writes to a fork, the view
/// writes through to that fork, on which `metadata` is registered for the
/// address and nothing else has changed.
pub open spec fn opened<C: ChangeSet, T: IndexAccess>(
    changes: C,
    access: T,
    address: AddressModel,
    metadata: IndexMetadata,
) -> bool {
    access.writes() ==> {
        let was = *access.lender();
        let now = *changes.lender();
        &&& changes.rest() == rest_of(now, address)
        &&& crate::index_metadata::registered_on(now, address, metadata)
        &&& now.base() == was.base()
        &&& now.spec_depth() == was.spec_depth()
        &&& forall|a: AddressModel|
            a != crate::index_metadata::metadata_address(address) ==> #[trigger] now.saved_model(a)
                == was.saved_model(a)
    }
}

/// Builds a view from an access, a name, the bytes of a family member, and
/// the kind of the index.
pub struct IndexBuilder<T: IndexAccess> {
    index_access: T,
    address: IndexAddress,
    index_type: IndexType,
}

impl<T: IndexAccess> IndexBuilder<T> {
    /// The access on which the view will be built.
    pub closed spec fn spec_access(&self) -> T {
        self.index_access
    }

    /// The address at which the view will be built.
    pub closed spec fn spec_address(&self) -> AddressModel {
        self.address@
    }

    /// The kind as which the index will be opened.
    pub closed spec fn spec_type(&self) -> IndexType {
        self.index_type
    }

    /// What the metadata of the index has to say for the view to be built.
    pub open spec fn spec_metadata(&self) -> IndexMetadata {
        IndexMetadata {
            index_type: self.spec_type(),
            has_parent: self.spec_address().bytes is Some,
        }
    }

    /// Whether the view may be built: no kind is recorded for the address,
    /// or what is recorded is the kind and the family flag of the builder.
    pub open spec fn allowed(&self) -> bool {
        crate::index_metadata::metadata_matches(
            self.spec_access(),
            self.spec_address(),
            self.spec_metadata(),
        )
    }

    /// Creates a builder on `index_access`, with no name and of the default
    /// kind.
    pub fn new(index_access: T) -> (r: IndexBuilder<T>)
        ensures
            r.spec_access() == index_access,
            r.spec_address() == (AddressModel { name: Seq::empty(), bytes: None }),
            r.spec_type() == IndexType::Mapping,
    {
        let address = IndexAddress::with_root(index_access.root());
        assert(address@.name =~= Seq::<char>::empty());
        IndexBuilder { index_access, address, index_type: IndexType::Mapping }
    }

    /// Creates a builder on `view`, with no name and of the default kind.
    pub fn from_view(view: T) -> (r: IndexBuilder<T>)
        ensures
            r.spec_access() == view,
            r.spec_address() == (AddressModel { name: Seq::empty(), bytes: None }),
            r.spec_type() == IndexType::Mapping,
    {
        IndexBuilder::new(view)
    }

    /// Appends `index_name` to the name of the index, after a dot where
    /// there is a name already.
    pub fn index_name(self, index_name: &str) -> (r: IndexBuilder<T>)
        ensures
            r.spec_access() == self.spec_access(),
            r.spec_type() == self.spec_type(),
            r.spec_address().bytes == self.spec_address().bytes,
            r.spec_address().name == if self.spec_address().name.len() == 0 {
                index_name@
            } else {
                self.spec_address().name + "."@ + index_name@
            },
    {
        let address = self.address.append_name(index_name);
        IndexBuilder { index_access: self.index_access, address, index_type: self.index_type }
    }

    /// Makes the index the member of its family that `family_id` names.
    pub fn family_id<I: StorageKey>(self, family_id: &I) -> (r: IndexBuilder<T>)
        ensures
            r.spec_access() == self.spec_access(),
            r.spec_type() == self.spec_type(),
            r.spec_address().name == self.spec_address().name,
            r.spec_address().bytes == Some(
                self.spec_address().prefix() + family_id.spec_bytes(),
            ),
    {
        let address = self.address.append_bytes(family_id);
        IndexBuilder { index_access: self.index_access, address, index_type: self.index_type }
    }

    /// Sets the kind of the index.
    pub fn index_type(self, index_type: IndexType) -> (r: IndexBuilder<T>)
        ensures
            r.spec_access() == self.spec_access(),
            r.spec_type() == index_type,
            r.spec_address() == self.spec_address(),
    {
        IndexBuilder { index_access: self.index_access, address: self.address, index_type }
    }

    /// Returns the view of the index at the address of the builder. On a
    /// fork that is written the kind and the family flag of the builder
    /// are registered for the address.
    pub fn build(self) -> (r: View<T::Changes>)
        requires
            self.allowed(),
        ensures
            r.addr() == self.spec_address(),
            r.base() == self.spec_access().base(),
            r.recorded() == self.spec_access().recorded(self.spec_address()),
            opened(r.changes, self.spec_access(), self.spec_address(), self.spec_metadata()),
            *final(r.changes.lender()) == *final(self.spec_access().lender()),
    {
        let IndexBuilder { index_access, address, index_type } = self;
        let mut access = index_access;
        let metadata = IndexMetadata { index_type, has_parent: address.bytes().is_some() };
        proof {
            crate::refs::lemma_metadata_address_differs(address@);
        }
        access.register(&address, &metadata);
        let ghost mid = access;
        let r = View::new(access, address);
        proof {
            if index_access.writes() {
                assert(*r.changes.lender() == *mid.lender());
                assert(crate::index_metadata::registered_on(*mid.lender(), address@, metadata));
            }
        }
        r
    }

}

impl<T: IndexAccess + Copy> IndexBuilder<T> {
    /// Returns `true` if the view may be built.
    pub fn check(&self) -> (r: bool)
        ensures
            r == self.allowed(),
    {
        let has_parent = self.address.bytes().is_some();
        let metadata = IndexMetadata { index_type: self.index_type, has_parent };
        crate::index_metadata::check_metadata(self.index_access, &self.address, &metadata)
    }

    /// Returns the view of the index at the address of the builder; `None`
    /// where another kind of index, or another family flag, is recorded for
    /// the address.
    pub fn try_build(self) -> (r: Option<View<T::Changes>>)
        ensures
            r is Some <==> self.allowed(),
            r matches Some(v) ==> v.addr() == self.spec_address() && v.base()
                == self.spec_access().base() && v.recorded() == self.spec_access().recorded(
                self.spec_address(),
            ),
    {
        if self.check() {
            Some(self.build())
        } else {
            None
        }
    }
}

impl<C: Recorder> View<C> {
    /// What was recorded for the index, with the saved states.
    pub open spec fn saved(&self) -> SavedModel {
        self.changes.spec_saved()
    }

    /// What was recorded is the current state of what was saved.
    pub proof fn lemma_saved(&self)
        ensures
            self.recorded() == Some(self.saved().current),
    {
        self.changes.lemma_current();
    }

    /// Holds `value` under `key` from now on.
    pub fn put<K: StorageKey, V: StorageValue>(&mut self, key: &K, value: V)
        ensures
            final(self).addr() == old(self).addr(),
            final(self).base() == old(self).base(),
            final(self).saved() == old(self).saved().apply(
                Mutation::Put(key.spec_bytes(), value.spec_bytes()),
            ),
            final(self).contents() == old(self).contents().insert(
                key.spec_bytes(),
                value.spec_bytes(),
            ),
            forall|k: Seq<u8>|
                #[trigger] final(self).read(k) == if k == key.spec_bytes() {
                    Some(value.spec_bytes())
                } else {
                    old(self).read(k)
                },
            final(self).changes.rest() == old(self).changes.rest(),
            *final(final(self).changes.lender()) == *final(old(self).changes.lender()),
    {
        proof {
            self.changes.lemma_current();
        }
        let ghost before = *self;
        let raw = key_bytes(key);
        self.changes.record_put(raw, value.into_bytes());
        proof {
            self.changes.lemma_current();
        }
        assert(self.contents() =~= old(self).contents().insert(
            key.spec_bytes(),
            value.spec_bytes(),
        ));
    }

    /// Holds the raw bytes `value` under the raw key `key` from now on.
    pub fn put_bytes(&mut self, key: Vec<u8>, value: Vec<u8>)
        ensures
            final(self).addr() == old(self).addr(),
            final(self).base() == old(self).base(),
            final(self).saved() == old(self).saved().apply(
                Mutation::Put(key@, value@),
            ),
            final(self).contents() == old(self).contents().insert(key@, value@),
            forall|k: Seq<u8>|
                #[trigger] final(self).read(k) == if k == key@ {
                    Some(value@)
                } else {
                    old(self).read(k)
                },
            final(self).changes.rest() == old(self).changes.rest(),
            *final(final(self).changes.lender()) == *final(old(self).changes.lender()),
    {
        proof {
            self.changes.lemma_current();
        }
        let ghost before = *self;
        self.changes.record_put(key, value);
        proof {
            self.changes.lemma_current();
        }
        assert(self.contents() =~= old(self).contents().insert(key@, value@));
    }

    /// Holds nothing under `key` from now on.
    pub fn remove<K: StorageKey>(&mut self, key: &K)
        ensures
            final(self).addr() == old(self).addr(),
            final(self).base() == old(self).base(),
            final(self).saved() == old(self).saved().apply(
                Mutation::Remove(key.spec_bytes()),
            ),
            final(self).contents() == old(self).contents().remove(key.spec_bytes()),
            forall|k: Seq<u8>|
                #[trigger] final(self).read(k) == if k == key.spec_bytes() {
                    None
                } else {
                    old(self).read(k)
                },
            final(self).changes.rest() == old(self).changes.rest(),
            *final(final(self).changes.lender()) == *final(old(self).changes.lender()),
    {
        proof {
            self.changes.lemma_current();
        }
        let ghost before = *self;
        let raw = key_bytes(key);
        self.changes.record_remove(raw);
        proof {
            self.changes.lemma_current();
        }
        assert(self.contents() =~= old(self).contents().remove(key.spec_bytes()));
    }

    /// Holds nothing under the raw key `key` from now on.
    pub fn remove_bytes(&mut self, key: Vec<u8>)
        ensures
            final(self).addr() == old(self).addr(),
            final(self).base() == old(self).base(),
            final(self).saved() == old(self).saved().apply(Mutation::Remove(key@)),
            final(self).contents() == old(self).contents().remove(key@),
            forall|k: Seq<u8>|
                #[trigger] final(self).read(k) == if k == key@ {
                    None
                } else {
                    old(self).read(k)
                },
            final(self).changes.rest() == old(self).changes.rest(),
            *final(final(self).changes.lender()) == *final(old(self).changes.lender()),
    {
        proof {
            self.changes.lemma_current();
        }
        let ghost before = *self;
        self.changes.record_remove(key);
        proof {
            self.changes.lemma_current();
        }
        assert(self.contents() =~= old(self).contents().remove(key@));
    }

    /// Clears the view: it holds nothing from now on, and at merge time all
    /// that the store holds for it is dropped.
    pub fn clear(&mut self)
        ensures
            final(self).addr() == old(self).addr(),
            final(self).base() == old(self).base(),
            final(self).saved() == old(self).saved().apply(Mutation::Clear),
            final(self).contents() == Map::<Seq<u8>, Seq<u8>>::empty(),
            forall|k: Seq<u8>| #[trigger] final(self).read(k) is None,
            final(self).changes.rest() == old(self).changes.rest(),
            *final(final(self).changes.lender()) == *final(old(self).changes.lender()),
    {
        proof {
            self.changes.lemma_current();
        }
        let ghost before = *self;
        self.changes.record_clear();
        proof {
            self.changes.lemma_current();
        }
        assert(self.contents() =~= Map::<Seq<u8>, Seq<u8>>::empty());
    }
}

impl View<ViewChanges> {
    /// Returns the record of the changes of the view.
    pub fn changes(&mut self) -> (r: &mut ViewChanges)
        ensures
            r.model() == old(self).saved(),
            final(self).saved() == final(r).model(),
            final(self).addr() == old(self).addr(),
            final(self).base() == old(self).base(),
    {
        &mut self.changes
    }

    /// Saves the changes as they stand.
    pub fn checkpoint(&mut self)
        ensures
            final(self).addr() == old(self).addr(),
            final(self).base() == old(self).base(),
            final(self).saved() == old(self).saved().checkpoint(),
            final(self).contents() == old(self).contents(),
    {
        self.changes.checkpoint();
        assert(self.contents() =~= old(self).contents());
    }

    /// Goes back to what was saved last, and gives that saved state up.
    pub fn rollback(&mut self)
        requires
            old(self).saved().stack.len() > 0,
        ensures
            final(self).addr() == old(self).addr(),
            final(self).base() == old(self).base(),
            final(self).saved() == old(self).saved().rollback(),
    {
        self.changes.rollback();
    }

    /// Gives up what was saved last and keeps the changes as they stand.
    pub fn commit_checkpoint(&mut self)
        requires
            old(self).saved().stack.len() > 0,
        ensures
            final(self).addr() == old(self).addr(),
            final(self).base() == old(self).base(),
            final(self).saved() == old(self).saved().commit_checkpoint(),
            final(self).contents() == old(self).contents(),
    {
        self.changes.commit_checkpoint();
        assert(self.contents() =~= old(self).contents());
    }
}

impl Fork {
    /// Returns the entries of the view at `address` with raw keys that do
    /// not come before `from`, in ascending order of the keys.
    pub fn iter(&self, address: &IndexAddress, from: &[u8]) -> (r: Vec<(Vec<u8>, Vec<u8>)>)
        ensures
            is_listing(
                pairs_view(r@),
                Map::new(
                    |k: Seq<u8>| self.read(address@, k) is Some,
                    |k: Seq<u8>| self.read(address@, k)->0,
                ),
                from@,
            ),
    {
        let view: View<ViewChanges> = View::new(self, address.duplicate());
        let r = view.iter_bytes(from);
        proof {
            assert(view.contents() =~= Map::new(
                |k: Seq<u8>| self.read(address@, k) is Some,
                |k: Seq<u8>| self.read(address@, k)->0,
            ));
        }
        r
    }
}

impl Snapshot {
    /// Returns the entries that the snapshot holds for the index at
    /// `address` with raw keys that do not come before `from`, in ascending
    /// order of the keys.
    pub fn iter_view(&self, address: &IndexAddress, from: &[u8]) -> (r: Vec<(Vec<u8>, Vec<u8>)>)
        ensures
            is_listing(pairs_view(r@), base_map(self@, address@), from@),
    {
        let view: View<()> = View::new(self, address.duplicate());
        let r = view.iter_bytes(from);
        proof {
            assert(view.contents() =~= base_map(self@, address@));
        }
        r
    }
}

} // verus!
