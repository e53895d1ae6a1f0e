//! Indexes as objects of a fork: opened by address, changed apart from the
//! fork, and handed back to it.

use vstd::prelude::*;

use vstd::view::View as _;

use crate::address::{AddressModel, IndexAddress};
use crate::byte_map::Duplicate;
use crate::changes::ViewChanges;
use crate::db::{Fork, Snapshot};
use crate::index_metadata::{
    metadata_address, registered, IndexMetadata, IndexMetadataAddress, IndexType, HAS_PARENT_KEY,
    INDEX_TYPE_KEY,
};
use crate::key_set_index::KeySetIndex;
use crate::keys::StorageKey;
use crate::list_index::ListIndex;
use crate::proof_map_index::key::ProofMapKey;
use crate::proof_map_index::ProofMapIndex;
use crate::values::StorageValue;
use crate::views::{rest_of, ChangeSet, IndexAccess, View, Writer};

verus! {

/// `uuid::Uuid::new_v4`: sixteen bytes from the random source of the
/// system. Nothing is known of them.
#[verifier::external_body]
fn random_id() -> (r: [u8; 16]) {
    uuid::Uuid::new_v4().into_bytes()
}

/// An index that can be handed to a fork.
pub trait AnyObject<C: ChangeSet>: Sized {
    /// The view under the index.
    spec fn spec_view(&self) -> View<C>;

    /// The kind of the index.
    spec fn spec_type(&self) -> IndexType;

    /// Gives up the index for the view under it.
    fn view(self) -> (r: View<C>)
        ensures
            r == self.spec_view(),
    ;

    /// Returns the kind of the index.
    fn object_type(&self) -> (r: IndexType)
        ensures
            r == self.spec_type(),
    ;

    /// Returns the kind of the index as it is stored.
    fn metadata(&self) -> (r: Vec<u8>)
        ensures
            r@ == seq![self.spec_type().spec_to_u8()],
    ;
}

/// An index that can be opened at an address of an access.
pub trait FromView<T: IndexAccess>: Sized {
    /// The view under the index.
    spec fn under(&self) -> View<T::Changes>;

    /// The metadata under which an index of this kind is registered at
    /// `address`.
    spec fn spec_metadata(address: AddressModel) -> IndexMetadata;

    /// Opens the index at `address` without asking what is registered
    /// there.
    fn create(address: IndexAddress, access: T) -> (r: Self)
        ensures
            r.under().addr() == address@,
            r.under().base() == access.base(),
            r.under().recorded() == access.recorded(address@),
            access.writes() ==> *r.under().changes.lender() == *access.lender()
                && r.under().changes.rest() == rest_of(*access.lender(), address@),
            *final(r.under().changes.lender()) == *final(access.lender()),
    ;

    /// Returns the metadata under which an index of this kind is
    /// registered at `address`.
    fn metadata_at(address: &IndexAddress) -> (r: IndexMetadata)
        ensures
            r == Self::spec_metadata(address@),
    ;
}

impl<C: ChangeSet> AnyObject<C> for View<C> {
    open spec fn spec_view(&self) -> View<C> {
        *self
    }

    open spec fn spec_type(&self) -> IndexType {
        IndexType::Mapping
    }

    fn view(self) -> (r: View<C>) {
        self
    }

    fn object_type(&self) -> (r: IndexType) {
        IndexType::Mapping
    }

    fn metadata(&self) -> (r: Vec<u8>) {
        IndexType::Mapping.to_bytes()
    }
}

impl<C: ChangeSet, K: StorageKey> AnyObject<C> for KeySetIndex<C, K> {
    open spec fn spec_view(&self) -> View<C> {
        self.view()
    }

    open spec fn spec_type(&self) -> IndexType {
        IndexType::KeySet
    }

    fn view(self) -> (r: View<C>) {
        self.into_view()
    }

    fn object_type(&self) -> (r: IndexType) {
        IndexType::KeySet
    }

    fn metadata(&self) -> (r: Vec<u8>) {
        IndexType::KeySet.to_bytes()
    }
}

impl<C: ChangeSet, V: StorageValue> AnyObject<C> for ListIndex<C, V> {
    open spec fn spec_view(&self) -> View<C> {
        self.view()
    }

    open spec fn spec_type(&self) -> IndexType {
        IndexType::List
    }

    fn view(self) -> (r: View<C>) {
        self.into_view()
    }

    fn object_type(&self) -> (r: IndexType) {
        IndexType::List
    }

    fn metadata(&self) -> (r: Vec<u8>) {
        IndexType::List.to_bytes()
    }
}

impl<C: ChangeSet, K: ProofMapKey, V: StorageValue> AnyObject<C> for ProofMapIndex<C, K, V> {
    open spec fn spec_view(&self) -> View<C> {
        self.view()
    }

    open spec fn spec_type(&self) -> IndexType {
        IndexType::ProofMap
    }

    fn view(self) -> (r: View<C>) {
        self.into_view()
    }

    fn object_type(&self) -> (r: IndexType) {
        IndexType::ProofMap
    }

    fn metadata(&self) -> (r: Vec<u8>) {
        IndexType::ProofMap.to_bytes()
    }
}

impl<T: IndexAccess, K: ProofMapKey, V: StorageValue> FromView<T> for ProofMapIndex<
    T::Changes,
    K,
    V,
> {
    open spec fn under(&self) -> View<T::Changes> {
        self.view()
    }

    open spec fn spec_metadata(address: AddressModel) -> IndexMetadata {
        IndexMetadata { index_type: IndexType::ProofMap, has_parent: address.bytes is Some }
    }

    fn create(address: IndexAddress, access: T) -> (r: Self) {
        ProofMapIndex::create_from(address, access)
    }

    fn metadata_at(address: &IndexAddress) -> (r: IndexMetadata) {
        IndexMetadata { index_type: IndexType::ProofMap, has_parent: address.bytes().is_some() }
    }
}

impl<T: IndexAccess, K: StorageKey> FromView<T> for KeySetIndex<T::Changes, K> {
    open spec fn under(&self) -> View<T::Changes> {
        self.view()
    }

    open spec fn spec_metadata(address: AddressModel) -> IndexMetadata {
        IndexMetadata { index_type: IndexType::KeySet, has_parent: address.bytes is Some }
    }

    fn create(address: IndexAddress, access: T) -> (r: Self) {
        KeySetIndex::create_from(address, access)
    }

    fn metadata_at(address: &IndexAddress) -> (r: IndexMetadata) {
        IndexMetadata { index_type: IndexType::KeySet, has_parent: address.bytes().is_some() }
    }
}

impl<T: IndexAccess, V: StorageValue> FromView<T> for ListIndex<T::Changes, V> {
    open spec fn under(&self) -> View<T::Changes> {
        self.view()
    }

    open spec fn spec_metadata(address: AddressModel) -> IndexMetadata {
        IndexMetadata { index_type: IndexType::List, has_parent: address.bytes is Some }
    }

    fn create(address: IndexAddress, access: T) -> (r: Self) {
        ListIndex::create_from(address, access)
    }

    fn metadata_at(address: &IndexAddress) -> (r: IndexMetadata) {
        IndexMetadata { index_type: IndexType::List, has_parent: address.bytes().is_some() }
    }
}

/// Opens the index at `address` on `access`; `None` unless an index of the
/// kind asked for is registered there.
pub fn get_object_at<T: IndexAccess + Copy, O: FromView<T>>(address: IndexAddress, access: T) -> (r:
    Option<O>)
    ensures
        r is Some <==> registered(access, address@, O::spec_metadata(address@)),
        r matches Some(s) ==> s.under().addr() == address@ && s.under().base() == access.base()
            && s.under().recorded() == access.recorded(address@),
{
    let metadata = O::metadata_at(&address);
    if crate::index_metadata::is_registered(access, &address, &metadata) {
        Some(O::create(address, access))
    } else {
        None
    }
}

/// A handle to an index that is only read.
#[derive(Debug)]
pub struct Ref<T> {
    value: T,
}

/// A handle to an index that may be changed.
#[derive(Debug)]
pub struct RefMut<T> {
    /// The index behind the handle.
    pub value: T,
}

impl<T> Ref<T> {
    /// The index behind the handle.
    pub closed spec fn spec_value(&self) -> T {
        self.value
    }

    /// Wraps an index.
    pub fn new(value: T) -> (r: Ref<T>)
        ensures
            r.spec_value() == value,
    {
        Ref { value }
    }

    /// Returns the index behind the handle.
    pub fn get(&self) -> (r: &T)
        ensures
            *r == self.spec_value(),
    {
        &self.value
    }

    /// Gives up the handle for the index.
    pub fn into_inner(self) -> (r: T)
        ensures
            r == self.spec_value(),
    {
        self.value
    }
}

impl<T> RefMut<T> {
    /// The index behind the handle.
    pub open spec fn spec_value(&self) -> T {
        self.value
    }

    /// Wraps an index.
    pub fn new(value: T) -> (r: RefMut<T>)
        ensures
            r.spec_value() == value,
    {
        RefMut { value }
    }

    /// Returns the index behind the handle.
    pub fn get(&self) -> (r: &T)
        ensures
            *r == self.spec_value(),
    {
        &self.value
    }

    /// Returns the index behind the handle, to be changed.
    pub fn get_mut(&mut self) -> (r: &mut T)
        ensures
            *r == old(self).spec_value(),
            final(self).spec_value() == *final(r),
    {
        &mut self.value
    }

    /// Gives up the handle for the index.
    pub fn into_inner(self) -> (r: T)
        ensures
            r == self.spec_value(),
    {
        self.value
    }
}

/// Access to the indexes of a snapshot, or of a fork that is read. An index
/// opened this way on a fork is a copy of what the fork holds: what is
/// written to it stays with it until `Fork::insert` takes it over. To write
/// to the fork itself, open the index with `Fork::get_object_mut` or
/// `Fork::get_or_create_object`, or on `Fork::writer`.
pub trait ObjectAccess: IndexAccess + Copy {
    /// Opens the index at `address`, to be read; `None` unless an index of
    /// the kind asked for is registered there.
    fn get_object<O: FromView<Self>>(&self, address: IndexAddress) -> (r: Option<Ref<O>>)
        ensures
            r is Some <==> registered(*self, address@, O::spec_metadata(address@)),
            r matches Some(o) ==> o.spec_value().under().addr() == address@
                && o.spec_value().under().base() == self.base()
                && o.spec_value().under().recorded() == self.recorded(address@),
    ;

    /// Opens the index at `address`, to be changed; `None` unless an index
    /// of the kind asked for is registered there.
    fn get_object_mut<O: FromView<Self>>(&self, address: IndexAddress) -> (r: Option<RefMut<O>>)
        ensures
            r is Some <==> registered(*self, address@, O::spec_metadata(address@)),
            r matches Some(o) ==> o.spec_value().under().addr() == address@
                && o.spec_value().under().base() == self.base()
                && o.spec_value().under().recorded() == self.recorded(address@),
    ;

    /// Opens the index at `address`, to be changed, whether or not one is
    /// registered there.
    fn get_or_create_object<O: FromView<Self>>(&self, address: IndexAddress) -> (r: RefMut<O>)
        ensures
            r.spec_value().under().addr() == address@,
            r.spec_value().under().base() == self.base(),
            r.spec_value().under().recorded() == self.recorded(address@),
    ;
}

impl<'a> ObjectAccess for &'a Snapshot {
    fn get_object<O: FromView<Self>>(&self, address: IndexAddress) -> (r: Option<Ref<O>>) {
        match get_object_at::<Self, O>(address, *self) {
            Some(value) => Some(Ref::new(value)),
            None => None,
        }
    }

    fn get_object_mut<O: FromView<Self>>(&self, address: IndexAddress) -> (r: Option<RefMut<O>>) {
        match get_object_at::<Self, O>(address, *self) {
            Some(value) => Some(RefMut::new(value)),
            None => None,
        }
    }

    fn get_or_create_object<O: FromView<Self>>(&self, address: IndexAddress) -> (r: RefMut<O>) {
        let object = get_object_at::<Self, O>(address.duplicate(), *self);
        match object {
            Some(value) => RefMut::new(value),
            None => RefMut::new(O::create(address, *self)),
        }
    }
}

impl<'a> ObjectAccess for &'a Fork {
    fn get_object<O: FromView<Self>>(&self, address: IndexAddress) -> (r: Option<Ref<O>>) {
        match get_object_at::<Self, O>(address, *self) {
            Some(value) => Some(Ref::new(value)),
            None => None,
        }
    }

    fn get_object_mut<O: FromView<Self>>(&self, address: IndexAddress) -> (r: Option<RefMut<O>>) {
        match get_object_at::<Self, O>(address, *self) {
            Some(value) => Some(RefMut::new(value)),
            None => None,
        }
    }

    fn get_or_create_object<O: FromView<Self>>(&self, address: IndexAddress) -> (r: RefMut<O>) {
        let object = get_object_at::<Self, O>(address.duplicate(), *self);
        match object {
            Some(value) => RefMut::new(value),
            None => RefMut::new(O::create(address, *self)),
        }
    }
}

/// The metadata of an index lies in another table than the index.
pub proof fn lemma_metadata_table_differs(address: AddressModel)
    ensures
        metadata_address(address).table() != address.table(),
{
    lemma_metadata_address_differs(address);
    vstd::utf8::encode_utf8_decode_utf8(metadata_address(address).name);
    vstd::utf8::encode_utf8_decode_utf8(address.name);
}

/// The address of an index differs from the address of its metadata.
pub proof fn lemma_metadata_address_differs(address: AddressModel)
    ensures
        metadata_address(address) != address,
        metadata_address(metadata_address(address)) != metadata_address(address),
{
    reveal_strlit("__INDEX_METADATA__");
    reveal_strlit(".");
    let m = metadata_address(address);
    assert(m.name.len() != address.name.len());
    assert(metadata_address(m).name.len() != m.name.len());
}

/// Registers `metadata` for the index at `address` on `fork`: the kind
/// and the family flag are written to the metadata of the address, which
/// one record serves for a whole family. Nothing else of the fork changes.
pub(crate) fn write_metadata(fork: &mut Fork, address: &IndexAddress, metadata: &IndexMetadata)
    ensures
        final(fork).base() == old(fork).base(),
        final(fork).spec_depth() == old(fork).spec_depth(),
        registered(&*final(fork), address@, *metadata),
        forall|a: AddressModel|
            a != metadata_address(address@) ==> final(fork).saved_model(a) == old(fork).saved_model(
                a,
            ),
{
    let target = IndexMetadataAddress::from(address);
    proof {
        crate::index_metadata::lemma_keys_differ();
        metadata.index_type.lemma_round_trip();
    }
    fork.put(
        &target.0,
        vstd::slice::slice_to_vec(INDEX_TYPE_KEY.as_bytes()),
        metadata.index_type.to_bytes(),
    );
    fork.put(
        &target.0,
        vstd::slice::slice_to_vec(HAS_PARENT_KEY.as_bytes()),
        metadata.has_parent.into_bytes(),
    );
}

/// Registers `metadata` for the index at `address` on `fork`, where no
/// kind is registered for the address yet or what is registered is
/// `metadata`. To open an index as another kind than the one registered is
/// a mistake of the caller, which `requires` leaves out; `check_metadata`
/// tells beforehand.
pub fn check_or_create_metadata(fork: &mut Fork, address: &IndexAddress, metadata: &IndexMetadata)
    requires
        crate::index_metadata::metadata_matches(&*old(fork), address@, *metadata),
    ensures
        final(fork).base() == old(fork).base(),
        final(fork).spec_depth() == old(fork).spec_depth(),
        registered(&*final(fork), address@, *metadata),
        forall|a: AddressModel|
            a != metadata_address(address@) ==> final(fork).saved_model(a) == old(fork).saved_model(
                a,
            ),
{
    write_metadata(fork, address, metadata);
}

/// Registers `metadata` for the index at `address` on `fork` if the
/// address has no other kind; returns `false`, and leaves the fork as it
/// is, where it has.
pub fn try_create_metadata(fork: &mut Fork, address: &IndexAddress, metadata: &IndexMetadata) -> (r:
    bool)
    ensures
        r == crate::index_metadata::metadata_matches(&*old(fork), address@, *metadata),
        r ==> registered(&*final(fork), address@, *metadata),
        !r ==> *final(fork) == *old(fork),
        final(fork).base() == old(fork).base(),
        final(fork).spec_depth() == old(fork).spec_depth(),
        forall|a: AddressModel|
            a != metadata_address(address@) ==> final(fork).saved_model(a) == old(fork).saved_model(
                a,
            ),
{
    if crate::index_metadata::check_metadata(&*fork, address, metadata) {
        check_or_create_metadata(fork, address, metadata);
        true
    } else {
        false
    }
}

impl Fork {
    /// Opens a new index at an address that is made up at random, under the
    /// name `tmp`.
    pub fn create_object<'a, O: FromView<&'a Fork>>(&'a self) -> (r: O)
        ensures
            r.under().base() == self.base(),
            r.under().addr().name == "tmp"@,
            r.under().addr().bytes matches Some(id) && id.len() == 16,
            r.under().recorded() == Some(self.changes_of(r.under().addr())),
    {
        let id = random_id();
        let id_bytes: Vec<u8> = vstd::slice::slice_to_vec(id.as_slice());
        let address = IndexAddress::with_root("tmp").append_bytes(&id_bytes);
        O::create(address, self)
    }

    /// Opens the index at `address`, to be read; `None` unless an index of
    /// the kind asked for is registered there.
    pub fn get_object<'a, O: FromView<&'a Fork>>(&'a self, address: IndexAddress) -> (r: Option<
        Ref<O>,
    >)
        ensures
            r is Some <==> registered(self, address@, O::spec_metadata(address@)),
            r matches Some(o) ==> o.spec_value().under().addr() == address@
                && o.spec_value().under().base() == self.base()
                && o.spec_value().under().recorded() == Some(self.changes_of(address@)),
    {
        match get_object_at::<&'a Fork, O>(address, self) {
            Some(value) => Some(Ref::new(value)),
            None => None,
        }
    }

    /// Opens the index at `address`, to be changed; `None` unless an index
    /// of the kind asked for is registered there. What is written to the
    /// index reaches the fork.
    pub fn get_object_mut<'a, O: FromView<Writer<'a>>>(&'a mut self, address: IndexAddress) -> (r:
        Option<RefMut<O>>)
        ensures
            r is Some <==> registered(&*old(self), address@, O::spec_metadata(address@)),
            r matches Some(o) ==> o.value.under().addr() == address@ && o.value.under().base()
                == old(self).base() && o.value.under().recorded() == Some(
                old(self).changes_of(address@),
            ) && *o.value.under().changes.lender() == *old(self)
                && o.value.under().changes.rest() == rest_of(*old(self), address@)
                && *final(o.value.under().changes.lender()) == *final(self),
            r is None ==> *final(self) == *old(self),
    {
        let metadata = O::metadata_at(&address);
        if crate::index_metadata::is_registered(&*self, &address, &metadata) {
            Some(RefMut::new(O::create(address, self.writer())))
        } else {
            None
        }
    }

    /// Opens the index at `address`, to be changed, and registers its kind
    /// for the address. What is written to the index reaches the fork. To
    /// open an index as another kind than the one registered is a mistake
    /// of the caller, which `requires` leaves out.
    pub fn get_or_create_object<'a, O: FromView<Writer<'a>>>(
        &'a mut self,
        address: IndexAddress,
    ) -> (r: RefMut<O>)
        requires
            crate::index_metadata::metadata_matches(
                &*old(self),
                address@,
                O::spec_metadata(address@),
            ),
        ensures
            r.value.under().addr() == address@,
            r.value.under().base() == old(self).base(),
            r.value.under().recorded() == Some(old(self).changes_of(address@)),
            registered(&*r.value.under().changes.lender(), address@, O::spec_metadata(address@)),
            r.value.under().changes.rest() == rest_of(
                *r.value.under().changes.lender(),
                address@,
            ),
            (*r.value.under().changes.lender()).base() == old(self).base(),
            (*r.value.under().changes.lender()).spec_depth() == old(self).spec_depth(),
            forall|a: AddressModel|
                a != metadata_address(address@) ==> #[trigger] (
                *r.value.under().changes.lender()).saved_model(a) == old(self).saved_model(a),
            *final(r.value.under().changes.lender()) == *final(self),
    {
        let metadata = O::metadata_at(&address);
        let mut writer = self.writer();
        proof {
            lemma_metadata_address_differs(address@);
        }
        writer.register(&address, &metadata);
        RefMut::new(O::create(address, writer))
    }

    /// Takes over `object` at `address`: what the object has recorded is
    /// what the fork holds for the address from now on, and the kind of the
    /// object is registered for the address.
    pub fn insert<A: AnyObject<ViewChanges>>(&mut self, address: &IndexAddress, object: A)
        ensures
            final(self).base() == old(self).base(),
            final(self).spec_depth() == old(self).spec_depth(),
            Some(final(self).changes_of(address@)) == object.spec_view().recorded(),
            registered(
                &*final(self),
                address@,
                IndexMetadata {
                    index_type: object.spec_type(),
                    has_parent: address@.bytes is Some,
                },
            ),
            forall|a: AddressModel|
                a != address@ && a != metadata_address(address@) ==> final(self).saved_model(a)
                    == old(self).saved_model(a),
    {
        let index_type = object.object_type();
        let has_parent = address.bytes().is_some();
        let changes = object.view().into_changes();
        self.replace(address, &changes);
        proof {
            lemma_metadata_address_differs(address@);
        }
        write_metadata(self, address, &IndexMetadata { index_type, has_parent });
    }
}

} // verus!
