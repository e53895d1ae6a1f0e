//! Addresses of indexes: a name, and for a member of a family the bytes
//! that tell it from its siblings.

use vstd::prelude::*;
use vstd::std_specs::cmp::PartialEqSpecImpl;

use vstd::utf8::encode_utf8;

use crate::byte_map::Duplicate;
use crate::keys::{key_bytes, StorageKey};
use crate::lex::bytes_eq;

verus! {

/// Joins three strings with the slice method `concat` of `std`: the result
/// holds the characters of `a`, then those of `b`, then those of `c`.
#[verifier::external_body]
fn concat3(a: &str, b: &str, c: &str) -> (r: String)
    ensures
        r@ == a@ + b@ + c@,
{
    [a, b, c].concat()
}

/// What an address is: the name of the index, and the bytes of the family
/// member if it is one.
pub struct AddressModel {
    /// Name of the index.
    pub name: Seq<char>,
    /// What tells the index from the other members of its family.
    pub bytes: Option<Seq<u8>>,
}

impl AddressModel {
    /// The table of the store in which the index lies.
    pub open spec fn table(self) -> Seq<u8> {
        encode_utf8(self.name)
    }

    /// What every key of the index begins with in that table.
    pub open spec fn prefix(self) -> Seq<u8> {
        match self.bytes {
            Some(b) => b,
            None => Seq::empty(),
        }
    }
}

/// The address of an index in the store.
#[derive(Debug, Eq)]
pub struct IndexAddress {
    pub(crate) name: String,
    pub(crate) bytes: Option<Vec<u8>>,
}

impl View for IndexAddress {
    type V = AddressModel;

    closed spec fn view(&self) -> AddressModel {
        AddressModel {
            name: self.name@,
            bytes: match self.bytes {
                Some(b) => Some(b@),
                None => None,
            },
        }
    }
}

impl PartialEq for IndexAddress {
    fn eq(&self, other: &IndexAddress) -> (r: bool) {
        if self.name != other.name {
            return false;
        }
        match (&self.bytes, &other.bytes) {
            (Some(a), Some(b)) => bytes_eq(a.as_slice(), b.as_slice()),
            (None, None) => true,
            _ => false,
        }
    }
}

impl PartialEqSpecImpl for IndexAddress {
    open spec fn obeys_eq_spec() -> bool {
        true
    }

    open spec fn eq_spec(&self, other: &IndexAddress) -> bool {
        self@ == other@
    }
}

impl Duplicate for IndexAddress {
    fn duplicate(&self) -> (r: IndexAddress) {
        IndexAddress {
            name: self.name.clone(),
            bytes: match &self.bytes {
                Some(b) => Some(b.duplicate()),
                None => None,
            },
        }
    }
}

impl Clone for IndexAddress {
    fn clone(&self) -> (r: IndexAddress)
        ensures
            r@ == self@,
    {
        self.duplicate()
    }
}

impl IndexAddress {
    /// Creates the address with an empty name and no family.
    pub fn new() -> (r: IndexAddress)
        ensures
            r@ == (AddressModel { name: Seq::empty(), bytes: None }),
    {
        IndexAddress { name: String::new(), bytes: None }
    }

    /// Creates the address of the index `root` outside any family.
    pub fn with_root(root: &str) -> (r: IndexAddress)
        ensures
            r@ == (AddressModel { name: root@, bytes: None }),
    {
        IndexAddress { name: root.to_owned(), bytes: None }
    }

    /// Returns the name of the index.
    pub fn name(&self) -> (r: &str)
        ensures
            r@ == self@.name,
    {
        self.name.as_str()
    }

    /// Returns the bytes of the family member, if the index is one.
    pub fn bytes(&self) -> (r: Option<&[u8]>)
        ensures
            r is Some <==> self@.bytes is Some,
            r matches Some(b) ==> b@ == self@.bytes->0,
    {
        match &self.bytes {
            Some(b) => Some(b.as_slice()),
            None => None,
        }
    }

    /// Returns the table and the key in it under which `key` of this index
    /// lies: the name, and the family bytes followed by `key`.
    pub fn keyed(&self, key: &[u8]) -> (r: (&str, Vec<u8>))
        ensures
            r.0@ == self@.name,
            r.1@ == self@.prefix() + key@,
    {
        let mut out: Vec<u8> = Vec::new();
        match &self.bytes {
            Some(b) => {
                out.extend_from_slice(b.as_slice());
            },
            None => {},
        }
        out.extend_from_slice(key);
        assert(out@ =~= self@.prefix() + key@);
        (self.name.as_str(), out)
    }

    /// Returns the address whose name is this one's, a dot and `suffix`;
    /// `suffix` alone where this name is empty. The family bytes stay.
    pub fn append_name(&self, suffix: &str) -> (r: IndexAddress)
        ensures
            r@.bytes == self@.bytes,
            r@.name == if self@.name.len() == 0 {
                suffix@
            } else {
                self@.name + "."@ + suffix@
            },
    {
        let name: String = if self.name.as_str().is_empty() {
            suffix.to_owned()
        } else {
            concat3(self.name.as_str(), ".", suffix)
        };
        IndexAddress {
            name,
            bytes: match &self.bytes {
                Some(b) => Some(b.duplicate()),
                None => None,
            },
        }
    }

    /// Returns the address of the family member that `suffix` names: the
    /// family bytes so far followed by the encoding of `suffix`.
    pub fn append_bytes<K: StorageKey>(&self, suffix: &K) -> (r: IndexAddress)
        ensures
            r@.name == self@.name,
            r@.bytes == Some(self@.prefix() + suffix.spec_bytes()),
    {
        let suffix_bytes = key_bytes(suffix);
        let (name, bytes) = self.keyed(suffix_bytes.as_slice());
        IndexAddress { name: name.to_owned(), bytes: Some(bytes) }
    }

    /// Returns the address of the same name outside any family.
    pub fn without_bytes(self) -> (r: IndexAddress)
        ensures
            r@ == (AddressModel { name: self@.name, bytes: None }),
    {
        IndexAddress { name: self.name, bytes: None }
    }

    /// Returns the bytes of the name: the key of the table in the store.
    pub fn table_key(&self) -> (r: &[u8])
        ensures
            r@ == self@.table(),
    {
        self.name.as_str().as_bytes()
    }
}

} // verus!
