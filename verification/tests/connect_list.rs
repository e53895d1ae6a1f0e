use merkledb::connect_list::{
    ConnectInfo, ConnectList, ConnectListConfig, PeerAddress, PublicKey, PUBLIC_KEY_LENGTH,
};
use rand::{rngs::StdRng, RngCore, SeedableRng};

const SEED_LENGTH: usize = 32;
const VALIDATORS: [[u8; SEED_LENGTH]; 2] = [[1; SEED_LENGTH], [2; SEED_LENGTH]];
const REGULAR_PEERS: [u8; SEED_LENGTH] = [3; SEED_LENGTH];

fn make_keys(source: [u8; SEED_LENGTH], count: usize) -> (Vec<PublicKey>, Vec<PublicKey>) {
    let mut rng: StdRng = SeedableRng::from_seed(source);
    (0..count)
        .map(|_| {
            let mut key = [0; PUBLIC_KEY_LENGTH];
            rng.fill_bytes(&mut key);
            (
                PublicKey::from_slice(&key).unwrap(),
                PublicKey::from_slice(&key).unwrap(),
            )
        })
        .unzip()
}

fn gen_key() -> PublicKey {
    let mut key = [0; PUBLIC_KEY_LENGTH];
    rand::thread_rng().fill_bytes(&mut key);
    PublicKey::new(key)
}

fn check_in_connect_list(
    connect_list: &ConnectList,
    keys: &[PublicKey],
    in_connect_list: &[usize],
    not_in_connect_list: &[usize],
) {
    for i in in_connect_list {
        assert_eq!(connect_list.is_peer_allowed(&keys[*i]), true);
    }
    for i in not_in_connect_list {
        assert_eq!(connect_list.is_peer_allowed(&keys[*i]), false);
    }
}

fn assert_identity_keys(connect_list: &ConnectList, peers: &(Vec<PublicKey>, Vec<PublicKey>)) {
    for (pk, pk_kx) in peers.0.iter().zip(peers.1.clone()) {
        assert_eq!(
            connect_list.identity.get(pk.as_bytes()).unwrap().as_bytes(),
            pk_kx.as_bytes()
        )
    }
}

fn add_to_connect_list(connect_list: &mut ConnectList, peers: &(Vec<PublicKey>, Vec<PublicKey>)) {
    let address = "127.0.0.1:80".to_owned();
    for (pk, pk_kx) in peers.0.iter().zip(peers.1.clone()) {
        connect_list.add(ConnectInfo {
            public_key: *pk,
            address: address.clone(),
            identity_key: pk_kx,
        })
    }
}

#[test]
fn test_whitelist() {
    let regular = make_keys(REGULAR_PEERS, 4);
    let address = "127.0.0.1:80".to_owned();

    let mut connect_list = ConnectList::default();
    check_in_connect_list(&connect_list, &regular.0, &[], &[0, 1, 2, 3]);
    connect_list.add(ConnectInfo {
        public_key: regular.0[0],
        address: address.clone(),
        identity_key: regular.1[0],
    });
    check_in_connect_list(&connect_list, &regular.0, &[0], &[1, 2, 3]);
    connect_list.add(ConnectInfo {
        public_key: regular.0[2],
        address: address.clone(),
        identity_key: regular.1[2],
    });
    check_in_connect_list(&connect_list, &regular.0, &[0, 2], &[1, 3]);

    assert_eq!(connect_list.peers.len(), 2);
}

#[test]
fn test_validators_in_whitelist() {
    let regular = make_keys(REGULAR_PEERS, 4);
    let validators = make_keys(VALIDATORS[0], 2);
    let mut connect_list = ConnectList::default();
    check_in_connect_list(&connect_list, &regular.0, &[], &[0, 1, 2, 3]);
    check_in_connect_list(&connect_list, &validators.0, &[], &[0, 1]);
    assert_eq!(connect_list.peers.len(), 0);
    assert!(connect_list.identity.get(regular.0[0].as_bytes()).is_none());
    assert!(connect_list.identity.get(validators.0[0].as_bytes()).is_none());

    add_to_connect_list(&mut connect_list, &validators);
    assert_eq!(connect_list.peers.len(), 2);
    check_in_connect_list(&connect_list, &regular.0, &[], &[0, 1, 2, 3]);
    check_in_connect_list(&connect_list, &validators.0, &[0, 1], &[]);
    assert!(connect_list.identity.get(regular.0[0].as_bytes()).is_none());
    assert_identity_keys(&connect_list, &validators);
}

#[test]
fn test_update_validators() {
    let validators0 = make_keys(VALIDATORS[0], 2);
    let validators1 = make_keys(VALIDATORS[1], 2);
    let mut connect_list = ConnectList::default();
    assert_eq!(connect_list.peers.len(), 0);
    add_to_connect_list(&mut connect_list, &validators0);
    assert_eq!(connect_list.peers.len(), 2);
    assert_identity_keys(&connect_list, &validators0);
    check_in_connect_list(&connect_list, &validators0.0, &[0, 1], &[]);
    check_in_connect_list(&connect_list, &validators1.0, &[], &[0, 1]);
    add_to_connect_list(&mut connect_list, &validators1);
    assert_eq!(connect_list.peers.len(), 4);
    check_in_connect_list(&connect_list, &validators0.0, &[0, 1], &[]);
    check_in_connect_list(&connect_list, &validators1.0, &[0, 1], &[]);
    assert_eq!(
        connect_list.identity.get(validators0.0[0].as_bytes()).unwrap().as_bytes(),
        validators0.1[0].as_bytes()
    );
    assert_identity_keys(&connect_list, &validators0);
    assert_identity_keys(&connect_list, &validators1);
}

#[test]
fn test_address_allowed() {
    let public_key = gen_key();
    let identity = gen_key();
    let address = "127.0.0.1:80".to_owned();

    let mut connect_list = ConnectList::default();
    assert!(!connect_list.is_address_allowed(&address));

    connect_list.add(ConnectInfo {
        public_key,
        address: address.clone(),
        identity_key: identity,
    });
    assert!(connect_list.is_address_allowed(&address));
}

#[test]
fn identity_key_added() {
    let public_key = gen_key();
    let identity = gen_key();
    let address = "127.0.0.1:80".to_owned();

    let mut connect_list = ConnectList::default();

    let connect_info = ConnectInfo {
        public_key,
        address: address.clone(),
        identity_key: identity,
    };

    connect_list.add(connect_info.clone());
    assert!(connect_list.identity.contains_key(public_key.as_bytes()));

    let connect_list_config = ConnectListConfig {
        peers: vec![connect_info],
    };

    let connect_list = ConnectList::from_config(connect_list_config);
    assert!(connect_list.identity.contains_key(public_key.as_bytes()));
}

#[test]
fn update_peer_sets_the_address_and_keeps_the_identity() {
    let key = PublicKey::new([1; 32]);
    let other = PublicKey::new([2; 32]);
    let mut list = ConnectList::default();
    list.add(ConnectInfo {
        public_key: key,
        address: "a:1".to_owned(),
        identity_key: PublicKey::new([9; 32]),
    });
    assert_eq!(list.find_address_by_pubkey(&key).unwrap().address, "a:1");
    assert!(list.find_address_by_pubkey(&other).is_none());
    list.update_peer(&key, "b:2".to_owned());
    assert_eq!(list.find_address_by_pubkey(&key).unwrap().address, "b:2");
    assert!(!list.is_address_allowed("a:1"));
    assert!(list.is_address_allowed("b:2"));
    assert_eq!(list.identity.get(key.as_bytes()).unwrap().to_vec(), vec![9; 32]);
    list.update_peer(&other, "c:3".to_owned());
    assert!(list.is_peer_allowed(&other));
    assert!(list.identity.get(other.as_bytes()).is_none());
    assert_eq!(PeerAddress::new("x".to_owned()).address, "x");
}

#[test]
fn from_config_keeps_the_later_of_two_peers_with_one_key() {
    let key = PublicKey::new([1; 32]);
    let config = ConnectListConfig {
        peers: vec![
            ConnectInfo {
                public_key: key,
                address: "first:1".to_owned(),
                identity_key: PublicKey::new([7; 32]),
            },
            ConnectInfo {
                public_key: key,
                address: "second:2".to_owned(),
                identity_key: PublicKey::new([8; 32]),
            },
        ],
    };
    let list = ConnectList::from_config(config);
    assert_eq!(list.peers.len(), 1);
    assert_eq!(list.find_address_by_pubkey(&key).unwrap().address, "second:2");
    assert_eq!(list.identity.get(key.as_bytes()).unwrap().to_vec(), vec![8; 32]);
    assert!(PublicKey::from_slice(&[0; 31]).is_none());
}
