//! The registry of index kinds: for each index name the kind of index that
//! lies under it, kept in the store beside the index itself.

use vstd::prelude::*;
use vstd::view::View as _;
use vstd::utf8::encode_utf8;

use crate::address::{AddressModel, IndexAddress};
use crate::changes::ViewChanges;
use crate::hash::{hash, sha256};
use crate::values::StorageValue;
use crate::views::{ChangeSet, IndexAccess, View};

verus! {

/// Name of the part of an index's namespace that holds its metadata.
pub const INDEX_METADATA_NAME: &'static str = "__INDEX_METADATA__";

/// Key of the metadata view under which the kind of the index lies.
pub const INDEX_TYPE_KEY: &'static str = "index_type";

/// Key of the metadata view under which lies whether the index belongs to
/// a family.
pub const HAS_PARENT_KEY: &'static str = "has_parent";

/// The kinds of index.
#[derive(Debug, Clone, Copy, PartialEq, Eq, Structural)]
pub enum IndexType {
    Mapping,
    List,
    Entry,
    ValueSet,
    KeySet,
    SparseList,
    ProofList,
    ProofMap,
}

impl IndexType {
    /// The number that stands for the kind in the store.
    pub open spec fn spec_to_u8(self) -> u8 {
        match self {
            IndexType::Mapping => 1,
            IndexType::List => 2,
            IndexType::Entry => 3,
            IndexType::ValueSet => 4,
            IndexType::KeySet => 5,
            IndexType::SparseList => 6,
            IndexType::ProofList => 7,
            IndexType::ProofMap => 8,
        }
    }

    /// The kind for which `value` stands, if it stands for one.
    pub open spec fn spec_from_u8(value: u8) -> Option<IndexType> {
        if value == 1 {
            Some(IndexType::Mapping)
        } else if value == 2 {
            Some(IndexType::List)
        } else if value == 3 {
            Some(IndexType::Entry)
        } else if value == 4 {
            Some(IndexType::ValueSet)
        } else if value == 5 {
            Some(IndexType::KeySet)
        } else if value == 6 {
            Some(IndexType::SparseList)
        } else if value == 7 {
            Some(IndexType::ProofList)
        } else if value == 8 {
            Some(IndexType::ProofMap)
        } else {
            None
        }
    }

    /// Each kind is the kind for which its number stands.
    pub proof fn lemma_round_trip(self)
        ensures
            IndexType::spec_from_u8(self.spec_to_u8()) == Some(self),
    {
    }

    /// Returns the number that stands for the kind in the store.
    pub fn to_u8(&self) -> (r: u8)
        ensures
            r == self.spec_to_u8(),
            1 <= r <= 8,
    {
        match self {
            IndexType::Mapping => 1,
            IndexType::List => 2,
            IndexType::Entry => 3,
            IndexType::ValueSet => 4,
            IndexType::KeySet => 5,
            IndexType::SparseList => 6,
            IndexType::ProofList => 7,
            IndexType::ProofMap => 8,
        }
    }

    /// Returns the kind for which `value` stands, if it stands for one.
    pub fn from_u8(value: u8) -> (r: Option<IndexType>)
        ensures
            r == IndexType::spec_from_u8(value),
            r matches Some(t) ==> t.spec_to_u8() == value,
    {
        if value == 1 {
            Some(IndexType::Mapping)
        } else if value == 2 {
            Some(IndexType::List)
        } else if value == 3 {
            Some(IndexType::Entry)
        } else if value == 4 {
            Some(IndexType::ValueSet)
        } else if value == 5 {
            Some(IndexType::KeySet)
        } else if value == 6 {
            Some(IndexType::SparseList)
        } else if value == 7 {
            Some(IndexType::ProofList)
        } else if value == 8 {
            Some(IndexType::ProofMap)
        } else {
            None
        }
    }

    /// Serializes the kind: one byte, its number.
    pub fn to_bytes(&self) -> (r: Vec<u8>)
        ensures
            r@ == seq![self.spec_to_u8()],
    {
        let mut r: Vec<u8> = Vec::new();
        r.push(self.to_u8());
        assert(r@ =~= seq![self.spec_to_u8()]);
        r
    }
}

impl Default for IndexType {
    fn default() -> (r: IndexType)
        ensures
            r == IndexType::Mapping,
    {
        IndexType::Mapping
    }
}

impl StorageValue for IndexType {
    open spec fn spec_bytes(&self) -> Seq<u8> {
        seq![self.spec_to_u8()]
    }

    open spec fn is_encoding(bytes: Seq<u8>) -> bool {
        bytes.len() == 1 && IndexType::spec_from_u8(bytes[0]) is Some
    }

    open spec fn spec_hash(bytes: Seq<u8>) -> Seq<u8> {
        sha256(bytes)
    }

    proof fn lemma_encoding(&self) {
    }

    fn hash(&self) -> (h: crate::hash::Hash) {
        let bytes = self.to_bytes();
        hash(bytes.as_slice())
    }

    fn into_bytes(self) -> (r: Vec<u8>) {
        self.to_bytes()
    }

    fn from_bytes(value: &[u8]) -> (r: Option<Self>) {
        if value.len() != 1 {
            return None;
        }
        assert(value@ =~= seq![value@[0]]);
        IndexType::from_u8(value[0])
    }
}

/// What is recorded of an index: its kind, and whether it belongs to a
/// family.
#[derive(Debug, Clone, Copy, PartialEq, Eq, Structural)]
pub struct IndexMetadata {
    /// Kind of the index.
    pub index_type: IndexType,
    /// Whether the index is a member of a family.
    pub has_parent: bool,
}

/// The address of the metadata of `address`: the name with the metadata
/// name appended, and no family bytes, so that one record serves a whole
/// family.
pub open spec fn metadata_address(address: AddressModel) -> AddressModel {
    AddressModel {
        name: if address.name.len() == 0 {
            INDEX_METADATA_NAME@
        } else {
            address.name + "."@ + INDEX_METADATA_NAME@
        },
        bytes: None,
    }
}

/// The address under which the metadata of an index lies.
#[derive(Debug)]
pub struct IndexMetadataAddress(pub IndexAddress);

impl IndexMetadataAddress {
    /// Returns the address of the metadata of the index at `address`.
    pub fn from(address: &IndexAddress) -> (r: IndexMetadataAddress)
        ensures
            r.0@ == metadata_address(address@),
    {
        IndexMetadataAddress(address.append_name(INDEX_METADATA_NAME).without_bytes())
    }
}

/// What a metadata view reads as the kind of its index.
pub open spec fn saved_type(index_type: Option<Seq<u8>>) -> Option<IndexType> {
    match index_type {
        Some(b) => if b.len() == 1 {
            IndexType::spec_from_u8(b[0])
        } else {
            None
        },
        None => None,
    }
}

/// What a metadata view reads as the family flag of its index.
pub open spec fn saved_flag(has_parent: Option<Seq<u8>>) -> Option<bool> {
    match has_parent {
        Some(b) => if b.len() == 1 && b[0] == 0 {
            Some(false)
        } else if b.len() == 1 && b[0] == 1 {
            Some(true)
        } else {
            None
        },
        None => None,
    }
}

/// The metadata that the two records of a metadata view amount to: none
/// where no kind is recorded.
pub open spec fn saved_metadata(
    index_type: Option<Seq<u8>>,
    has_parent: Option<Seq<u8>>,
) -> Option<IndexMetadata> {
    match (saved_type(index_type), saved_flag(has_parent)) {
        (Some(t), Some(f)) => Some(IndexMetadata { index_type: t, has_parent: f }),
        _ => None,
    }
}

/// Whether the records of a metadata view make sense together: where a
/// kind is recorded, the family flag is recorded too.
pub open spec fn consistent(index_type: Option<Seq<u8>>, has_parent: Option<Seq<u8>>) -> bool {
    saved_type(index_type) is Some ==> saved_flag(has_parent) is Some
}

/// Whether an index may be opened as `metadata` over these records: there
/// is no record of a kind, or the records say the same as `metadata`.
pub open spec fn compatible(
    index_type: Option<Seq<u8>>,
    has_parent: Option<Seq<u8>>,
    metadata: IndexMetadata,
) -> bool {
    saved_type(index_type) is None || saved_metadata(index_type, has_parent) == Some(metadata)
}

/// The view of the metadata of one index.
pub struct IndexMetadataView<C: ChangeSet> {
    view: View<C>,
}

impl<C: ChangeSet> IndexMetadataView<C> {
    /// The records of the view.
    pub closed spec fn spec_view(&self) -> View<C> {
        self.view
    }

    /// The record of the kind.
    pub open spec fn type_record(&self) -> Option<Seq<u8>> {
        self.spec_view().read(encode_utf8(INDEX_TYPE_KEY@))
    }

    /// The record of the family flag.
    pub open spec fn flag_record(&self) -> Option<Seq<u8>> {
        self.spec_view().read(encode_utf8(HAS_PARENT_KEY@))
    }

    /// Creates the metadata view at `address` on `snapshot`.
    pub fn new<T: IndexAccess<Changes = C>>(snapshot: T, address: IndexMetadataAddress) -> (r:
        IndexMetadataView<C>)
        ensures
            r.spec_view().addr() == address.0@,
            r.spec_view().base() == snapshot.base(),
            r.spec_view().recorded() == snapshot.recorded(address.0@),
    {
        IndexMetadataView { view: View::new(snapshot, address.0) }
    }

    /// Returns `true` if the records make sense together.
    pub fn is_consistent(&self) -> (r: bool)
        ensures
            r == consistent(self.type_record(), self.flag_record()),
    {
        let index_type: Option<IndexType> = match self.view.get_bytes(INDEX_TYPE_KEY.as_bytes()) {
            Some(b) => IndexType::from_bytes(b.as_slice()),
            None => None,
        };
        let has_parent: Option<bool> = match self.view.get_bytes(HAS_PARENT_KEY.as_bytes()) {
            Some(b) => bool::from_bytes(b.as_slice()),
            None => None,
        };
        index_type.is_none() || has_parent.is_some()
    }

    /// Returns the metadata recorded; `None` where no kind is recorded.
    pub fn index_metadata(&self) -> (r: Option<IndexMetadata>)
        requires
            consistent(self.type_record(), self.flag_record()),
        ensures
            r == saved_metadata(self.type_record(), self.flag_record()),
            r is Some <==> saved_type(self.type_record()) is Some,
    {
        let index_type: IndexType = match self.view.get_bytes(INDEX_TYPE_KEY.as_bytes()) {
            Some(b) => match IndexType::from_bytes(b.as_slice()) {
                Some(t) => t,
                None => {
                    return None;
                },
            },
            None => {
                return None;
            },
        };
        let has_parent: Option<bool> = match self.view.get_bytes(HAS_PARENT_KEY.as_bytes()) {
            Some(b) => bool::from_bytes(b.as_slice()),
            None => None,
        };
        match has_parent {
            Some(has_parent) => Some(IndexMetadata { index_type, has_parent }),
            None => None,
        }
    }
}

impl IndexMetadataView<ViewChanges> {
    /// Records `metadata`.
    pub fn set_index_metadata(&mut self, metadata: &IndexMetadata)
        ensures
            final(self).spec_view().addr() == old(self).spec_view().addr(),
            final(self).spec_view().base() == old(self).spec_view().base(),
            consistent(final(self).type_record(), final(self).flag_record()),
            saved_metadata(final(self).type_record(), final(self).flag_record()) == Some(*metadata),
    {
        self.view.put_bytes(
            vstd::slice::slice_to_vec(INDEX_TYPE_KEY.as_bytes()),
            metadata.index_type.into_bytes(),
        );
        self.view.put_bytes(
            vstd::slice::slice_to_vec(HAS_PARENT_KEY.as_bytes()),
            metadata.has_parent.into_bytes(),
        );
        proof {
            lemma_keys_differ();
            metadata.index_type.lemma_round_trip();
        }
    }

    /// Gives up the view for its changes.
    pub fn into_changes(self) -> (r: ViewChanges)
        ensures
            Some(r@) == self.spec_view().recorded(),
    {
        self.view.into_changes()
    }
}

/// The two keys of a metadata view are different keys.
pub proof fn lemma_keys_differ()
    ensures
        encode_utf8(INDEX_TYPE_KEY@) != encode_utf8(HAS_PARENT_KEY@),
{
    reveal_strlit("index_type");
    reveal_strlit("has_parent");
    vstd::utf8::encode_utf8_decode_utf8(INDEX_TYPE_KEY@);
    vstd::utf8::encode_utf8_decode_utf8(HAS_PARENT_KEY@);
    assert(INDEX_TYPE_KEY@[0] == 'i');
    assert(HAS_PARENT_KEY@[0] == 'h');
}

/// Returns `true` if an index may be opened as `metadata` at `address` on
/// `snapshot`: no kind is recorded for the address, or what is recorded is
/// `metadata`.
pub fn check_metadata<T: IndexAccess>(snapshot: T, address: &IndexAddress, metadata: &IndexMetadata) -> (r:
    bool)
    ensures
        r == metadata_matches(snapshot, address@, *metadata),
{
    let view: IndexMetadataView<T::Changes> = IndexMetadataView::new(
        snapshot,
        IndexMetadataAddress::from(address),
    );
    if !view.is_consistent() {
        return false;
    }
    match view.index_metadata() {
        Some(saved) => saved.index_type == metadata.index_type && saved.has_parent
            == metadata.has_parent,
        None => true,
    }
}

/// What `access` reads under `key` of the view at `address`.
pub open spec fn access_read<T: IndexAccess>(access: T, address: AddressModel, key: Seq<u8>) -> Option<
    Seq<u8>,
> {
    let b = crate::db::base_read(access.base(), address, key);
    match access.recorded(address) {
        Some(c) => c.read(key, b),
        None => b,
    }
}

/// Whether an index may be opened as `metadata` at `address` on `access`.
pub open spec fn metadata_matches<T: IndexAccess>(
    access: T,
    address: AddressModel,
    metadata: IndexMetadata,
) -> bool {
    compatible(
        access_read(access, metadata_address(address), encode_utf8(INDEX_TYPE_KEY@)),
        access_read(access, metadata_address(address), encode_utf8(HAS_PARENT_KEY@)),
        metadata,
    )
}

/// Whether an index is registered as `metadata` at `address` on `access`.
pub open spec fn registered<T: IndexAccess>(
    access: T,
    address: AddressModel,
    metadata: IndexMetadata,
) -> bool {
    saved_metadata(
        access_read(access, metadata_address(address), encode_utf8(INDEX_TYPE_KEY@)),
        access_read(access, metadata_address(address), encode_utf8(HAS_PARENT_KEY@)),
    ) == Some(metadata)
}

/// Whether an index is registered as `metadata` at `address` on the fork
/// `fork`.
pub open spec fn registered_on(
    fork: crate::db::Fork,
    address: AddressModel,
    metadata: IndexMetadata,
) -> bool {
    saved_metadata(
        fork.read(metadata_address(address), encode_utf8(INDEX_TYPE_KEY@)),
        fork.read(metadata_address(address), encode_utf8(HAS_PARENT_KEY@)),
    ) == Some(metadata)
}

/// Returns `true` if an index is registered as `metadata` at `address` on
/// `snapshot`.
pub fn is_registered<T: IndexAccess>(snapshot: T, address: &IndexAddress, metadata: &IndexMetadata) -> (r:
    bool)
    ensures
        r == registered(snapshot, address@, *metadata),
        r ==> metadata_matches(snapshot, address@, *metadata),
{
    let view: IndexMetadataView<T::Changes> = IndexMetadataView::new(
        snapshot,
        IndexMetadataAddress::from(address),
    );
    if !view.is_consistent() {
        return false;
    }
    match view.index_metadata() {
        Some(saved) => saved.index_type == metadata.index_type && saved.has_parent
            == metadata.has_parent,
        None => false,
    }
}

} // verus!
