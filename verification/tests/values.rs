use merkledb::hash::{hash, try_hash};
use merkledb::index_metadata::IndexType;
use merkledb::keys::{key_bytes, StorageKey};
use merkledb::values::StorageValue;

#[test]
fn u8_round_trip() {
    let values = [u8::min_value(), 1, u8::max_value()];
    for value in values.iter() {
        let bytes = value.into_bytes();
        assert_eq!(Some(*value), u8::from_bytes(&bytes));
    }
}

#[test]
fn i8_round_trip() {
    let values = [i8::min_value(), -1, 0, 1, i8::max_value()];
    for value in values.iter() {
        let bytes = value.into_bytes();
        assert_eq!(Some(*value), i8::from_bytes(&bytes));
    }
}

#[test]
fn u16_round_trip() {
    let values = [u16::min_value(), 1, u16::max_value()];
    for value in values.iter() {
        let bytes = value.into_bytes();
        assert_eq!(Some(*value), u16::from_bytes(&bytes));
    }
}

#[test]
fn i16_round_trip() {
    let values = [i16::min_value(), -1, 0, 1, i16::max_value()];
    for value in values.iter() {
        let bytes = value.into_bytes();
        assert_eq!(Some(*value), i16::from_bytes(&bytes));
    }
}

#[test]
fn u32_round_trip() {
    let values = [u32::min_value(), 1, u32::max_value()];
    for value in values.iter() {
        let bytes = value.into_bytes();
        assert_eq!(Some(*value), u32::from_bytes(&bytes));
    }
}

#[test]
fn i32_round_trip() {
    let values = [i32::min_value(), -1, 0, 1, i32::max_value()];
    for value in values.iter() {
        let bytes = value.into_bytes();
        assert_eq!(Some(*value), i32::from_bytes(&bytes));
    }
}

#[test]
fn u64_round_trip() {
    let values = [u64::min_value(), 1, u64::max_value()];
    for value in values.iter() {
        let bytes = value.into_bytes();
        assert_eq!(Some(*value), u64::from_bytes(&bytes));
    }
}

#[test]
fn i64_round_trip() {
    let values = [i64::min_value(), -1, 0, 1, i64::max_value()];
    for value in values.iter() {
        let bytes = value.into_bytes();
        assert_eq!(Some(*value), i64::from_bytes(&bytes));
    }
}

#[test]
fn bool_round_trip() {
    let values = [false, true];
    for value in values.iter() {
        let bytes = value.into_bytes();
        assert_eq!(Some(*value), bool::from_bytes(&bytes));
    }
}

#[test]
fn vec_round_trip() {
    let values = [vec![], vec![1], vec![1, 2, 3], vec![255; 100]];
    for value in values.iter() {
        let bytes = StorageValue::into_bytes(value.clone());
        assert_eq!(Some(value.clone()), <Vec<u8> as StorageValue>::from_bytes(&bytes));
    }
}

#[test]
fn string_round_trip() {
    let values: Vec<_> = ["", "e", "2", "hello"].iter().map(|v| v.to_string()).collect();
    for value in values.iter() {
        let bytes = StorageValue::into_bytes(value.clone());
        assert_eq!(Some(value.clone()), <String as StorageValue>::from_bytes(&bytes));
    }
}

#[test]
fn test_index_type_binary_value_correct() {
    let index_type = IndexType::ProofMap;
    let buf = index_type.to_bytes();
    assert_eq!(IndexType::from_bytes(&buf).unwrap(), index_type);
}

#[test]
fn index_type_rejects_a_buffer_of_two_bytes() {
    let buf = vec![1, 2];
    assert!(IndexType::from_bytes(&buf).is_none());
}

#[test]
fn index_type_rejects_an_unknown_number() {
    let buf = vec![127];
    assert!(IndexType::from_bytes(&buf).is_none());
    assert!(IndexType::from_u8(0).is_none());
    assert!(IndexType::from_u8(9).is_none());
}

#[test]
fn index_type_numbers_are_one_to_eight() {
    let kinds = [
        IndexType::Mapping,
        IndexType::List,
        IndexType::Entry,
        IndexType::ValueSet,
        IndexType::KeySet,
        IndexType::SparseList,
        IndexType::ProofList,
        IndexType::ProofMap,
    ];
    for (i, kind) in kinds.iter().enumerate() {
        assert_eq!(kind.to_u8(), i as u8 + 1);
        assert_eq!(IndexType::from_u8(i as u8 + 1), Some(*kind));
        assert_eq!(StorageValue::into_bytes(*kind), vec![i as u8 + 1]);
    }
    assert_eq!(IndexType::default(), IndexType::Mapping);
}

#[test]
fn integers_are_stored_little_endian() {
    assert_eq!(0x1234u16.into_bytes(), vec![0x34, 0x12]);
    assert_eq!(0x1234_5678u32.into_bytes(), vec![0x78, 0x56, 0x34, 0x12]);
    assert_eq!(
        0x0102_0304_0506_0708u64.into_bytes(),
        vec![8, 7, 6, 5, 4, 3, 2, 1]
    );
    assert_eq!((-2i16).into_bytes(), vec![0xFE, 0xFF]);
    assert_eq!((-2i32).into_bytes(), vec![0xFE, 0xFF, 0xFF, 0xFF]);
    assert_eq!((-2i64).into_bytes(), vec![0xFE, 0xFF, 0xFF, 0xFF, 0xFF, 0xFF, 0xFF, 0xFF]);
    assert_eq!(u16::from_bytes(&[0x34, 0x12]), Some(0x1234));
    assert_eq!(u32::from_bytes(&[0x78, 0x56, 0x34, 0x12]), Some(0x1234_5678));
    assert_eq!(u64::from_bytes(&[8, 7, 6, 5, 4, 3, 2, 1]), Some(0x0102_0304_0506_0708));
}

#[test]
fn values_of_the_wrong_size_are_rejected() {
    assert_eq!(u8::from_bytes(&[]), None);
    assert_eq!(u8::from_bytes(&[1, 2]), None);
    assert_eq!(u16::from_bytes(&[1]), None);
    assert_eq!(u16::from_bytes(&[1, 2, 3]), None);
    assert_eq!(u32::from_bytes(&[1, 2, 3]), None);
    assert_eq!(u64::from_bytes(&[1, 2, 3, 4, 5, 6, 7]), None);
    assert_eq!(i8::from_bytes(&[]), None);
    assert_eq!(i16::from_bytes(&[1]), None);
    assert_eq!(i32::from_bytes(&[1]), None);
    assert_eq!(i64::from_bytes(&[1]), None);
    assert_eq!(bool::from_bytes(&[2]), None);
    assert_eq!(bool::from_bytes(&[0, 0]), None);
    assert_eq!(<() as StorageValue>::from_bytes(&[0]), None);
    assert_eq!(<() as StorageValue>::from_bytes(&[]), Some(()));
    assert_eq!(<String as StorageValue>::from_bytes(&[0xFF, 0xFE]), None);
    assert!(<merkledb::hash::Hash as StorageValue>::from_bytes(&[0; 31]).is_none());
}

#[test]
fn keys_of_integers_are_stored_big_endian() {
    assert_eq!(key_bytes(&0x1234_5678u32), vec![0x12, 0x34, 0x56, 0x78]);
    assert_eq!(key_bytes(&0x0102_0304_0506_0708u64), vec![1, 2, 3, 4, 5, 6, 7, 8]);
    assert_eq!(key_bytes(&7u8), vec![7]);
    assert_eq!(key_bytes(&()), Vec::<u8>::new());
    assert_eq!(key_bytes(&"abc".to_string()), b"abc".to_vec());
    assert_eq!(key_bytes(&vec![9u8, 8]), vec![9, 8]);
    assert_eq!(<u32 as StorageKey>::read(&[0x12, 0x34, 0x56, 0x78]), Some(0x1234_5678));
    assert_eq!(<u64 as StorageKey>::read(&[1, 2, 3, 4, 5, 6, 7, 8]), Some(0x0102_0304_0506_0708));
    assert_eq!(<u32 as StorageKey>::read(&[1, 2, 3]), None);
    assert_eq!(<u64 as StorageKey>::read(&[1, 2, 3]), None);
    assert_eq!(<u8 as StorageKey>::read(&[1, 2]), None);
    assert_eq!(<String as StorageKey>::read(b"abc"), Some("abc".to_string()));
    assert_eq!(<String as StorageKey>::read(&[0xC0]), None);
    assert_eq!(<[u8; 32] as StorageKey>::read(&[5; 32]), Some([5; 32]));
    assert_eq!(<[u8; 32] as StorageKey>::read(&[5; 31]), None);
    assert_eq!(0x1234_5678u32.size(), 4);
    assert_eq!(1u64.size(), 8);
    assert_eq!("abc".to_string().size(), 3);
}

#[test]
fn the_order_of_integer_keys_is_the_order_of_the_integers() {
    let numbers = [0u64, 1, 255, 256, 65_535, 65_536, u64::max_value() - 1, u64::max_value()];
    for w in numbers.windows(2) {
        assert!(key_bytes(&w[0]) < key_bytes(&w[1]));
    }
}

fn hex(bytes: &[u8]) -> String {
    bytes.iter().map(|b| format!("{:02x}", b)).collect()
}

#[test]
fn hash_is_sha_256() {
    assert_eq!(
        hex(hash(b"").as_bytes()),
        "e3b0c44298fc1c149afbf4c8996fb92427ae41e4649b934ca495991b7852b855"
    );
    assert_eq!(
        hex(hash(b"abc").as_bytes()),
        "ba7816bf8f01cfea414140de5dae2223b00361a396177a9cb410ff61f20015ad"
    );
    assert_eq!(try_hash(b"abc"), Some(hash(b"abc")));
    assert_ne!(hash(b"abc"), hash(b"abd"));
}

#[test]
fn hash_of_values() {
    assert_eq!(StorageValue::hash(&vec![1u8, 2]), hash(&[1, 2]));
    assert_eq!(StorageValue::hash(&7u8), hash(&[7]));
    assert_eq!(StorageValue::hash(&true), hash(&[1]));
    assert_eq!(StorageValue::hash(&0x0102u16), hash(&[2, 1]));
    assert_eq!(StorageValue::hash(&1u32), hash(&[1, 0, 0, 0]));
    assert_eq!(StorageValue::hash(&1u64), hash(&[1, 0, 0, 0, 0, 0, 0, 0]));
    assert_eq!(StorageValue::hash(&(-1i8)), hash(&[255]));
    assert_eq!(StorageValue::hash(&(-1i16)), hash(&[255, 255]));
    assert_eq!(StorageValue::hash(&(-1i32)), hash(&[255; 4]));
    assert_eq!(StorageValue::hash(&(-1i64)), hash(&[255; 8]));
    assert_eq!(StorageValue::hash(&"ab".to_string()), hash(b"ab"));
    assert_eq!(StorageValue::hash(&()), merkledb::hash::Hash::zero());
    let h = hash(b"x");
    assert_eq!(StorageValue::hash(&h), h);
    assert_eq!(StorageValue::hash(&IndexType::List), hash(&[2]));
}

#[test]
fn hash_from_and_to_bytes() {
    assert_eq!(merkledb::hash::Hash::zero().as_bytes(), &[0u8; 32]);
    assert_eq!(merkledb::hash::Hash::new([3; 32]).to_vec(), vec![3; 32]);
    assert_eq!(merkledb::hash::Hash::from_slice(&[3; 32]), Some(merkledb::hash::Hash::new([3; 32])));
    assert_eq!(merkledb::hash::Hash::from_slice(&[3; 33]), None);
    assert_eq!(StorageValue::into_bytes(merkledb::hash::Hash::new([4; 32])), vec![4; 32]);
    assert_eq!(key_bytes(&merkledb::hash::Hash::new([4; 32])), vec![4; 32]);
    assert_eq!(<merkledb::hash::Hash as StorageKey>::read(&[4; 32]), Some(merkledb::hash::Hash::new([4; 32])));
}
