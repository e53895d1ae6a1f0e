//! The peers to which a node may connect: public keys with the addresses
//! and the identity keys that belong to them.

use vstd::prelude::*;

use crate::byte_map::{ByteMap, Duplicate};
use crate::keys::copy_bytes;

verus! {

/// Number of bytes in a public key.
pub const PUBLIC_KEY_LENGTH: usize = 32;

/// The public key of a peer.
#[derive(Debug, Clone, Copy)]
pub struct PublicKey {
    bytes: [u8; 32],
}

impl View for PublicKey {
    type V = Seq<u8>;

    closed spec fn view(&self) -> Seq<u8> {
        self.bytes@
    }
}

impl PublicKey {
    /// Makes a key of the given bytes.
    pub fn new(bytes: [u8; 32]) -> (r: PublicKey)
        ensures
            r@ == bytes@,
    {
        PublicKey { bytes }
    }

    /// Makes a key of the given bytes; `None` unless there are 32 of them.
    pub fn from_slice(bytes: &[u8]) -> (r: Option<PublicKey>)
        ensures
            r is Some <==> bytes@.len() == PUBLIC_KEY_LENGTH,
            r matches Some(k) ==> k@ == bytes@,
    {
        if bytes.len() != PUBLIC_KEY_LENGTH {
            return None;
        }
        let mut data = [0u8; 32];
        copy_bytes(bytes, &mut data);
        Some(PublicKey { bytes: data })
    }

    /// Returns the bytes of the key.
    pub fn as_bytes(&self) -> (r: &[u8])
        ensures
            r@ == self@,
    {
        self.bytes.as_slice()
    }

    /// Returns the bytes of the key as a vector.
    pub fn to_vec(&self) -> (r: Vec<u8>)
        ensures
            r@ == self@,
    {
        vstd::slice::slice_to_vec(self.bytes.as_slice())
    }
}

impl Duplicate for PublicKey {
    fn duplicate(&self) -> (r: PublicKey) {
        PublicKey { bytes: self.bytes }
    }
}

/// Network address of a peer.
#[derive(Debug)]
pub struct PeerAddress {
    /// External address of the peer: host name and port.
    pub address: String,
}

impl View for PeerAddress {
    type V = Seq<char>;

    open spec fn view(&self) -> Seq<char> {
        self.address@
    }
}

impl PeerAddress {
    /// Creates an address that is not resolved yet.
    pub fn new(address: String) -> (r: PeerAddress)
        ensures
            r@ == address@,
    {
        PeerAddress { address }
    }
}

impl Clone for PeerAddress {
    fn clone(&self) -> (r: PeerAddress)
        ensures
            r@ == self@,
    {
        PeerAddress { address: self.address.clone() }
    }
}

/// What is known of one peer.
#[derive(Debug)]
pub struct ConnectInfo {
    /// Public key of the peer.
    pub public_key: PublicKey,
    /// Address of the peer.
    pub address: String,
    /// Identity key of the peer.
    pub identity_key: PublicKey,
}

impl Clone for ConnectInfo {
    fn clone(&self) -> (r: ConnectInfo)
        ensures
            r.public_key@ == self.public_key@,
            r.address@ == self.address@,
            r.identity_key@ == self.identity_key@,
    {
        ConnectInfo {
            public_key: self.public_key,
            address: self.address.clone(),
            identity_key: self.identity_key,
        }
    }
}

/// The peers that a configuration names.
#[derive(Debug)]
pub struct ConnectListConfig {
    /// The peers, in the order in which they are taken in.
    pub peers: Vec<ConnectInfo>,
}

/// The addresses after the first `n` of `peers` were taken in, one after
/// the other.
pub open spec fn peers_of(peers: Seq<ConnectInfo>, n: int) -> Map<Seq<u8>, Seq<char>>
    decreases n,
{
    if n <= 0 {
        Map::empty()
    } else {
        peers_of(peers, n - 1).insert(peers[n - 1].public_key@, peers[n - 1].address@)
    }
}

/// The identity keys after the first `n` of `peers` were taken in, one
/// after the other.
pub open spec fn identities_of(peers: Seq<ConnectInfo>, n: int) -> Map<Seq<u8>, Seq<u8>>
    decreases n,
{
    if n <= 0 {
        Map::empty()
    } else {
        identities_of(peers, n - 1).insert(peers[n - 1].public_key@, peers[n - 1].identity_key@)
    }
}

/// The mapping between public keys and addresses of peers.
pub struct ConnectList {
    /// Peers to which we can connect.
    pub peers: ByteMap<PeerAddress>,
    /// The identity key of each peer.
    pub identity: ByteMap<PublicKey>,
}

impl Default for ConnectList {
    fn default() -> (r: ConnectList)
        ensures
            r.peers@ == Map::<Seq<u8>, Seq<char>>::empty(),
            r.identity@ == Map::<Seq<u8>, Seq<u8>>::empty(),
    {
        ConnectList { peers: ByteMap::new(), identity: ByteMap::new() }
    }
}

impl ConnectList {
    /// Creates the list of the peers that `config` names. Of two peers with
    /// one public key the later one stays.
    pub fn from_config(config: ConnectListConfig) -> (r: ConnectList)
        ensures
            r.peers@ == peers_of(config.peers@, config.peers@.len() as int),
            r.identity@ == identities_of(config.peers@, config.peers@.len() as int),
    {
        let mut peers: ByteMap<PeerAddress> = ByteMap::new();
        let mut identity: ByteMap<PublicKey> = ByteMap::new();
        let n: usize = config.peers.len();
        let mut i: usize = 0;
        while i < n
            invariant
                i <= n,
                n == config.peers@.len(),
                peers@ == peers_of(config.peers@, i as int),
                identity@ == identities_of(config.peers@, i as int),
            decreases n - i,
        {
            let peer = &config.peers[i];
            identity.insert(peer.public_key.to_vec(), peer.identity_key);
            peers.insert(peer.public_key.to_vec(), PeerAddress::new(peer.address.clone()));
            i += 1;
        }
        ConnectList { peers, identity }
    }

    /// Returns `true` if a peer with the given public key can connect.
    pub fn is_peer_allowed(&self, peer: &PublicKey) -> (r: bool)
        ensures
            r == self.peers@.contains_key(peer@),
    {
        self.peers.contains_key(peer.as_bytes())
    }

    /// Returns `true` if some peer of the list has the address `address`.
    pub fn is_address_allowed(&self, address: &str) -> (r: bool)
        ensures
            r == exists|k: Seq<u8>| self.peers@.contains_key(k) && #[trigger] self.peers@[k] == address@,
    {
        proof {
            use_type_invariant(&self.peers);
            self.peers.lemma_view();
        }
        let wanted: String = address.to_owned();
        let n: usize = self.peers.len();
        let mut i: usize = 0;
        while i < n
            invariant
                i <= n,
                n == self.peers.key_seq().len(),
                self.peers.wf(),
                wanted@ == address@,
                forall|j: int| 0 <= j < i ==> self.peers.value_seq()[j] != address@,
            decreases n - i,
        {
            if self.peers.value_at(i).address == wanted {
                proof {
                    self.peers.lemma_view();
                    let k = self.peers.key_seq()[i as int];
                    assert(self.peers@.contains_key(k) && self.peers@[k] == address@);
                }
                return true;
            }
            i += 1;
        }
        proof {
            self.peers.lemma_view();
            assert forall|k: Seq<u8>| self.peers@.contains_key(k) implies #[trigger] self.peers@[k]
                != address@ by {
                let j = self.peers.key_seq().index_of(k);
                assert(self.peers.key_seq()[j] == k);
            }
        }
        false
    }

    /// Returns the address of the peer with the public key `key`.
    pub fn find_address_by_pubkey(&self, key: &PublicKey) -> (r: Option<&PeerAddress>)
        ensures
            r is Some <==> self.peers@.contains_key(key@),
            r matches Some(a) ==> a@ == self.peers@[key@],
    {
        self.peers.get(key.as_bytes())
    }

    /// Adds a peer to the list, in place of the one with the same public
    /// key if there is one.
    pub fn add(&mut self, peer: ConnectInfo)
        ensures
            final(self).peers@ == old(self).peers@.insert(peer.public_key@, peer.address@),
            final(self).identity@ == old(self).identity@.insert(
                peer.public_key@,
                peer.identity_key@,
            ),
    {
        self.peers.insert(peer.public_key.to_vec(), PeerAddress::new(peer.address));
        self.identity.insert(peer.public_key.to_vec(), peer.identity_key);
    }

    /// Sets the address of the peer with the public key `public_key`.
    pub fn update_peer(&mut self, public_key: &PublicKey, address: String)
        ensures
            final(self).peers@ == old(self).peers@.insert(public_key@, address@),
            final(self).identity@ == old(self).identity@,
    {
        self.peers.insert(public_key.to_vec(), PeerAddress::new(address));
    }
}

} // verus!
