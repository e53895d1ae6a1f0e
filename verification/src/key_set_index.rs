//! A set of keys: an index that stores its items as keys with empty values.

use core::marker::PhantomData;
use vstd::prelude::*;
use vstd::view::View as _;

use crate::address::{AddressModel, IndexAddress};
use crate::changes::ViewChanges;

use crate::index_metadata::{IndexMetadata, IndexType};
use crate::keys::StorageKey;
use crate::listing::is_listing;
use crate::views::{opened, rest_of, ChangeSet, IndexAccess, Recorder, IndexBuilder, Iter, View};

verus! {

/// A set of items that are stored as keys.
pub struct KeySetIndex<C: ChangeSet, K> {
    /// The view under the set.
    pub base: View<C>,
    /// Marks the type of the items.
    pub _k: PhantomData<K>,
}

/// An iterator over the items of a `KeySetIndex`, in ascending order of
/// their encodings.
pub struct KeySetIndexIter<K> {
    base_iter: Iter<K, ()>,
}

impl<K: StorageKey> KeySetIndexIter<K> {
    /// The raw entries that the iterator has not looked at yet.
    pub closed spec fn pending(&self) -> Seq<(Seq<u8>, Seq<u8>)> {
        self.base_iter.pending()
    }

    /// The bytes with which the raw key of every item handed out begins.
    pub closed spec fn spec_prefix(&self) -> Seq<u8> {
        self.base_iter.spec_prefix()
    }

    /// Whether the iterator hands out the item stored as `(key, value)`.
    pub open spec fn accepts(&self, key: Seq<u8>, value: Seq<u8>) -> bool {
        crate::lex::has_prefix(key, self.spec_prefix()) && K::is_encoding(key) && value.len() == 0
    }

    /// Hands out the next item; `None` at the end, which is also where an
    /// entry is not accepted.
    pub fn next(&mut self) -> (r: Option<K>)
        ensures
            final(self).spec_prefix() == old(self).spec_prefix(),
            old(self).pending().len() > 0 && old(self).accepts(
                old(self).pending()[0].0,
                old(self).pending()[0].1,
            ) ==> final(self).pending() == old(self).pending().drop_first() && (r matches Some(k)
                && k.spec_bytes() == old(self).pending()[0].0),
            !(old(self).pending().len() > 0 && old(self).accepts(
                old(self).pending()[0].0,
                old(self).pending()[0].1,
            )) ==> r is None && final(self).pending().len() == 0,
    {
        match self.base_iter.next() {
            Some((k, _)) => Some(k),
            None => None,
        }
    }
}

impl<C: ChangeSet, K: StorageKey> KeySetIndex<C, K> {
    /// The view under the set.
    pub open spec fn view(&self) -> View<C> {
        self.base
    }

    /// The encodings of the items of the set.
    pub open spec fn items(&self) -> Set<Seq<u8>> {
        self.view().contents().dom()
    }

    /// The metadata under which a set at `address` is registered.
    pub open spec fn metadata_for(address: AddressModel) -> IndexMetadata {
        IndexMetadata { index_type: IndexType::KeySet, has_parent: address.bytes is Some }
    }

    /// Opens the set named `index_name` on `view`.
    pub fn new<T: IndexAccess<Changes = C>>(index_name: &str, view: T) -> (r: KeySetIndex<C, K>)
        requires
            crate::index_metadata::metadata_matches(
                view,
                AddressModel { name: index_name@, bytes: None },
                Self::metadata_for(AddressModel { name: index_name@, bytes: None }),
            ),
        ensures
            r.view().addr() == (AddressModel { name: index_name@, bytes: None }),
            r.view().base() == view.base(),
            r.view().recorded() == view.recorded(AddressModel { name: index_name@, bytes: None }),
            opened(r.view().changes, view, (AddressModel { name: index_name@, bytes: None }), Self::metadata_for((AddressModel { name: index_name@, bytes: None }))),
            *final(r.view().changes.lender()) == *final(view.lender()),
    {
        let builder = IndexBuilder::from_view(view).index_type(IndexType::KeySet).index_name(
            index_name,
        );
        KeySetIndex { base: builder.build(), _k: PhantomData }
    }

    /// Opens the set at `address` on `access` without asking what is
    /// registered there.
    pub fn create_from<T: IndexAccess<Changes = C>>(address: IndexAddress, access: T) -> (r:
        KeySetIndex<C, K>)
        ensures
            r.view().addr() == address@,
            r.view().base() == access.base(),
            r.view().recorded() == access.recorded(address@),
            access.writes() ==> *r.view().changes.lender() == *access.lender()
                && r.view().changes.rest() == rest_of(*access.lender(), address@),
            *final(r.view().changes.lender()) == *final(access.lender()),
    {
        KeySetIndex { base: View::new(access, address), _k: PhantomData }
    }

    /// Opens the set at `address` on `access`; `None` unless a set is
    /// registered there.
    pub fn get_from<T: IndexAccess<Changes = C> + Copy>(address: IndexAddress, access: T) -> (r: Option<
        KeySetIndex<C, K>,
    >)
        ensures
            r is Some <==> crate::index_metadata::registered(access, address@, Self::metadata_for(address@)),
            r matches Some(s) ==> s.view().addr() == address@ && s.view().base() == access.base()
                && s.view().recorded() == access.recorded(address@),
    {
        let metadata = IndexMetadata {
            index_type: IndexType::KeySet,
            has_parent: address.bytes().is_some(),
        };
        if crate::index_metadata::is_registered(access, &address, &metadata) {
            Some(Self::create_from(address, access))
        } else {
            None
        }
    }

    /// Returns `true` if the set holds `item`.
    pub fn contains(&self, item: &K) -> (r: bool)
        ensures
            r == self.items().contains(item.spec_bytes()),
    {
        self.base.contains(item)
    }

    /// Returns an iterator over the items of the set, in ascending order
    /// of their encodings.
    pub fn iter(&self) -> (r: KeySetIndexIter<K>)
        ensures
            is_listing(r.pending(), self.view().contents(), Seq::empty()),
            r.spec_prefix().len() == 0,
    {
        KeySetIndexIter { base_iter: self.base.iter(&()) }
    }

    /// Returns an iterator over the items of the set from `from` on, in
    /// ascending order of their encodings.
    pub fn iter_from(&self, from: &K) -> (r: KeySetIndexIter<K>)
        ensures
            is_listing(r.pending(), self.view().contents(), from.spec_bytes()),
            r.spec_prefix().len() == 0,
    {
        KeySetIndexIter { base_iter: self.base.iter_from(&(), from) }
    }

    /// Gives up the set for the view under it.
    pub fn into_view(self) -> (r: View<C>)
        ensures
            r == self.view(),
    {
        self.base
    }
}

impl<C: Recorder, K: StorageKey> KeySetIndex<C, K> {
    /// Adds `item` to the set.
    pub fn insert(&mut self, item: K)
        ensures
            final(self).items() == old(self).items().insert(item.spec_bytes()),
            final(self).view().addr() == old(self).view().addr(),
            final(self).view().base() == old(self).view().base(),
            final(self).view().changes.rest() == old(self).view().changes.rest(),
            *final(final(self).view().changes.lender())
                == *final(old(self).view().changes.lender()),
    {
        self.base.put(&item, ());
        assert(self.items() =~= old(self).items().insert(item.spec_bytes()));
    }

    /// Takes `item` out of the set.
    pub fn remove(&mut self, item: &K)
        ensures
            final(self).items() == old(self).items().remove(item.spec_bytes()),
            final(self).view().addr() == old(self).view().addr(),
            final(self).view().base() == old(self).view().base(),
            final(self).view().changes.rest() == old(self).view().changes.rest(),
            *final(final(self).view().changes.lender())
                == *final(old(self).view().changes.lender()),
    {
        self.base.remove(item);
        assert(self.items() =~= old(self).items().remove(item.spec_bytes()));
    }

    /// Takes every item out of the set.
    pub fn clear(&mut self)
        ensures
            final(self).items() == Set::<Seq<u8>>::empty(),
            final(self).view().addr() == old(self).view().addr(),
            final(self).view().base() == old(self).view().base(),
            final(self).view().changes.rest() == old(self).view().changes.rest(),
            *final(final(self).view().changes.lender())
                == *final(old(self).view().changes.lender()),
    {
        self.base.clear();
        assert(self.items() =~= Set::<Seq<u8>>::empty());
    }
}

} // verus!
