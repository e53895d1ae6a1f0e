//! A list: an index that stores its items under their positions, and its
//! length under the empty key.

use core::marker::PhantomData;
use vstd::bytes::{spec_u64_from_le_bytes, spec_u64_to_le_bytes};
use vstd::prelude::*;
use vstd::view::View as _;

use crate::address::{AddressModel, IndexAddress};
use crate::changes::ViewChanges;
use crate::index_metadata::{IndexMetadata, IndexType};
use crate::keys::be_bytes_u64;
use crate::values::StorageValue;
use crate::views::{opened, rest_of, ChangeSet, IndexAccess, Recorder, IndexBuilder, View};

verus! {

/// The length that a list reads from what lies under the empty key: 0
/// where nothing lies there, or where what lies there is no number.
pub open spec fn stored_len(record: Option<Seq<u8>>) -> u64 {
    match record {
        Some(b) => if b.len() == 8 {
            spec_u64_from_le_bytes(b)
        } else {
            0
        },
        None => 0,
    }
}

/// A list of items.
pub struct ListIndex<C: ChangeSet, V> {
    /// The view under the list.
    pub base: View<C>,
    /// Marks the type of the items.
    pub _v: PhantomData<V>,
}

impl<C: ChangeSet, V: StorageValue> ListIndex<C, V> {
    /// The view under the list.
    pub open spec fn view(&self) -> View<C> {
        self.base
    }

    /// The length of the list.
    pub open spec fn spec_len(&self) -> u64 {
        stored_len(self.view().read(Seq::empty()))
    }

    /// What is stored for position `index`.
    pub open spec fn item(&self, index: u64) -> Option<Seq<u8>> {
        self.view().read(be_bytes_u64(index))
    }

    /// The metadata under which a list at `address` is registered.
    pub open spec fn metadata_for(address: AddressModel) -> IndexMetadata {
        IndexMetadata { index_type: IndexType::List, has_parent: address.bytes is Some }
    }

    /// Opens the list named `index_name` on `view`.
    pub fn new<T: IndexAccess<Changes = C>>(index_name: &str, view: T) -> (r: ListIndex<C, V>)
        requires
            crate::index_metadata::metadata_matches(
                view,
                AddressModel { name: index_name@, bytes: None },
                Self::metadata_for(AddressModel { name: index_name@, bytes: None }),
            ),
        ensures
            r.view().addr() == (AddressModel { name: index_name@, bytes: None }),
            r.view().base() == view.base(),
            r.view().recorded() == view.recorded(AddressModel { name: index_name@, bytes: None }),
            opened(r.view().changes, view, (AddressModel { name: index_name@, bytes: None }), Self::metadata_for((AddressModel { name: index_name@, bytes: None }))),
            *final(r.view().changes.lender()) == *final(view.lender()),
    {
        let builder = IndexBuilder::from_view(view).index_type(IndexType::List).index_name(
            index_name,
        );
        ListIndex { base: builder.build(), _v: PhantomData }
    }

    /// Opens the list at `address` on `access` without asking what is
    /// registered there.
    pub fn create_from<T: IndexAccess<Changes = C>>(address: IndexAddress, access: T) -> (r:
        ListIndex<C, V>)
        ensures
            r.view().addr() == address@,
            r.view().base() == access.base(),
            r.view().recorded() == access.recorded(address@),
            access.writes() ==> *r.view().changes.lender() == *access.lender()
                && r.view().changes.rest() == rest_of(*access.lender(), address@),
            *final(r.view().changes.lender()) == *final(access.lender()),
    {
        ListIndex { base: View::new(access, address), _v: PhantomData }
    }

    /// Opens the list at `address` on `access`; `None` unless a list is
    /// registered there.
    pub fn get_from<T: IndexAccess<Changes = C> + Copy>(address: IndexAddress, access: T) -> (r: Option<
        ListIndex<C, V>,
    >)
        ensures
            r is Some <==> crate::index_metadata::registered(
                access,
                address@,
                Self::metadata_for(address@),
            ),
            r matches Some(s) ==> s.view().addr() == address@ && s.view().base() == access.base()
                && s.view().recorded() == access.recorded(address@),
    {
        let metadata = IndexMetadata {
            index_type: IndexType::List,
            has_parent: address.bytes().is_some(),
        };
        if crate::index_metadata::is_registered(access, &address, &metadata) {
            Some(Self::create_from(address, access))
        } else {
            None
        }
    }

    /// Returns the number of items in the list.
    pub fn len(&self) -> (r: u64)
        ensures
            r == self.spec_len(),
    {
        let empty: [u8; 0] = [];
        assert(empty@ =~= Seq::<u8>::empty());
        match self.base.get_bytes(empty.as_slice()) {
            Some(b) => match u64::from_bytes(b.as_slice()) {
                Some(n) => {
                    proof {
                        vstd::bytes::lemma_auto_spec_u64_to_from_le_bytes();
                    }
                    n
                },
                None => 0,
            },
            None => 0,
        }
    }

    /// Returns `true` if the list has no item.
    pub fn is_empty(&self) -> (r: bool)
        ensures
            r == (self.spec_len() == 0),
    {
        self.len() == 0
    }

    /// Returns the item at position `index`: `None` where nothing is stored
    /// for the position, or where what is stored is no encoding of a `V`.
    pub fn get(&self, index: u64) -> (r: Option<V>)
        ensures
            r is Some <==> (self.item(index) matches Some(b) && V::is_encoding(b)),
            r matches Some(v) ==> Some(v.spec_bytes()) == self.item(index),
    {
        self.base.get(&index)
    }

    /// Gives up the list for the view under it.
    pub fn into_view(self) -> (r: View<C>)
        ensures
            r == self.view(),
    {
        self.base
    }
}

impl<C: Recorder, V: StorageValue> ListIndex<C, V> {
    /// Records `len` as the length of the list.
    pub fn set_len(&mut self, len: u64)
        ensures
            final(self).spec_len() == len,
            forall|i: u64| #[trigger] final(self).item(i) == old(self).item(i),
            final(self).view().addr() == old(self).view().addr(),
            final(self).view().base() == old(self).view().base(),
            final(self).view().changes.rest() == old(self).view().changes.rest(),
            *final(final(self).view().changes.lender())
                == *final(old(self).view().changes.lender()),
    {
        self.base.put(&(), len);
        proof {
            vstd::bytes::lemma_auto_spec_u64_to_from_le_bytes();
            assert forall|i: u64| #[trigger] self.item(i) == old(self).item(i) by {
                assert(be_bytes_u64(i).len() == 8);
            }
        }
    }

    /// Appends `value` to the list.
    pub fn push(&mut self, value: V)
        requires
            old(self).spec_len() < u64::MAX,
        ensures
            final(self).spec_len() == old(self).spec_len() + 1,
            final(self).item(old(self).spec_len()) == Some(value.spec_bytes()),
            forall|i: u64|
                i != old(self).spec_len() ==> #[trigger] final(self).item(i) == old(self).item(i),
            final(self).view().addr() == old(self).view().addr(),
            final(self).view().base() == old(self).view().base(),
            final(self).view().changes.rest() == old(self).view().changes.rest(),
            *final(final(self).view().changes.lender())
                == *final(old(self).view().changes.lender()),
    {
        let len = self.len();
        proof {
            vstd::bytes::lemma_auto_spec_u64_to_from_le_bytes();
            assert(be_bytes_u64(len).len() == 8);
            assert forall|i: u64| i != len implies be_bytes_u64(i) != be_bytes_u64(len) by {
                crate::keys::lemma_reverse_twice(spec_u64_to_le_bytes(i));
                crate::keys::lemma_reverse_twice(spec_u64_to_le_bytes(len));
            }
        }
        self.base.put(&len, value);
        self.set_len(len + 1);
    }

    /// Takes every item out of the list.
    pub fn clear(&mut self)
        ensures
            final(self).spec_len() == 0,
            forall|i: u64| #[trigger] final(self).item(i) is None,
            final(self).view().addr() == old(self).view().addr(),
            final(self).view().base() == old(self).view().base(),
            final(self).view().changes.rest() == old(self).view().changes.rest(),
            *final(final(self).view().changes.lender())
                == *final(old(self).view().changes.lender()),
    {
        self.base.clear();
    }
}

} // verus!
