use merkledb::proof_map_index::key::{
    BitsRange, ChildKind, ProofPath, BRANCH_KEY_PREFIX, LEAF_KEY_PREFIX, PROOF_PATH_SIZE,
};

#[test]
fn test_proof_path_storage_key_leaf() {
    let key = ProofPath::new(&[250; 32]);
    let mut buf = vec![0; PROOF_PATH_SIZE];
    key.write(&mut buf);
    let key2 = ProofPath::read(&buf);

    assert_eq!(buf[0], LEAF_KEY_PREFIX);
    assert_eq!(buf[33], 0);
    assert_eq!(&buf[1..33], &[250; 32]);
    assert_eq!(key2, key);
}

#[test]
fn test_proof_path_storage_key_branch() {
    let mut key = ProofPath::new(&[255u8; 32]);
    key = key.prefix(11);
    key = key.suffix(5);

    let mut buf = vec![0; PROOF_PATH_SIZE];
    key.write(&mut buf);
    let mut key2 = ProofPath::read(&buf);
    key2 = key2.start_from(5);

    assert_eq!(buf[0], BRANCH_KEY_PREFIX);
    assert_eq!(buf[33], 11);
    assert_eq!(&buf[1..3], &[255, 7]);
    assert_eq!(&buf[3..33], &[0; 30]);
    assert_eq!(key2, key);
}

#[test]
fn test_proof_path_suffix() {
    let b = ProofPath::from_raw(*b"\x00\x01\x02\xFF\x0C0000000000000000000000000000\x20");

    assert_eq!(b.len(), 32);
    assert_eq!(b.bit(0), ChildKind::Right);
    assert_eq!(b.bit(7), ChildKind::Left);
    assert_eq!(b.bit(8), ChildKind::Left);
    assert_eq!(b.bit(9), ChildKind::Right);
    assert_eq!(b.bit(15), ChildKind::Left);
    assert_eq!(b.bit(16), ChildKind::Right);
    assert_eq!(b.bit(20), ChildKind::Right);
    assert_eq!(b.bit(23), ChildKind::Right);
    assert_eq!(b.bit(26), ChildKind::Right);
    assert_eq!(b.bit(27), ChildKind::Right);
    assert_eq!(b.bit(31), ChildKind::Left);
    let b2 = b.suffix(8);
    assert_eq!(b2.len(), 24);
    assert_eq!(b2.bit(0), ChildKind::Left);
    assert_eq!(b2.bit(1), ChildKind::Right);
    assert_eq!(b2.bit(7), ChildKind::Left);
    assert_eq!(b2.bit(12), ChildKind::Right);
    assert_eq!(b2.bit(15), ChildKind::Right);
    let b3 = b2.suffix(24);
    assert_eq!(b3.len(), 0);
    let b4 = b.suffix(1);
    assert_eq!(b4.bit(6), ChildKind::Left);
    assert_eq!(b4.bit(7), ChildKind::Left);
    assert_eq!(b4.bit(8), ChildKind::Right);
}

#[test]
fn test_proof_path_prefix() {
    let b = ProofPath::from_raw(*b"\x00\x83wertyuiopasdfghjklzxcvbnm123456\x08");
    assert_eq!(b.len(), 8);
    assert_eq!(b.prefix(1).bit(0), ChildKind::Right);
    assert_eq!(b.prefix(1).len(), 1);
}

#[test]
fn test_proof_path_len() {
    let b = ProofPath::from_raw(*b"\x01qwertyuiopasdfghjklzxcvbnm123456\x00");
    assert_eq!(b.len(), 256);
}

#[test]
fn test_proof_path_common_prefix() {
    let b1 = ProofPath::from_raw(*b"\x01abcd0000000000000000000000000000\x00");
    let b2 = ProofPath::from_raw(*b"\x01abef0000000000000000000000000000\x00");
    assert_eq!(b1.common_prefix(&b1), 256);
    let c = b1.common_prefix(&b2);
    assert_eq!(c, 17);
    let c = b2.common_prefix(&b1);
    assert_eq!(c, 17);
    let b1 = b1.suffix(9);
    let b2 = b2.suffix(9);
    let c = b1.common_prefix(&b2);
    assert_eq!(c, 8);
    let b3 = ProofPath::from_raw(*b"\x01\xFF0000000000000000000000000000000\x00");
    let b4 = ProofPath::from_raw(*b"\x01\xF70000000000000000000000000000000\x00");
    assert_eq!(b3.common_prefix(&b4), 3);
    assert_eq!(b4.common_prefix(&b3), 3);
    assert_eq!(b3.common_prefix(&b3), 256);
    let b3 = b3.suffix(30);
    assert_eq!(b3.common_prefix(&b3), 226);
    let b3 = b3.prefix(200);
    assert_eq!(b3.common_prefix(&b3), 200);
    let b5 = ProofPath::from_raw(*b"\x01\xF00000000000000000000000000000000\x00");
    assert_eq!(b5.prefix(0).common_prefix(&b3), 0);
}

#[test]
fn test_proof_path_is_leaf() {
    let b = ProofPath::from_raw(*b"\x01qwertyuiopasdfghjklzxcvbnm123456\x00");
    assert_eq!(b.len(), 256);
    assert_eq!(b.suffix(4).is_leaf(), true);
    assert_eq!(b.suffix(8).is_leaf(), true);
    assert_eq!(b.suffix(250).is_leaf(), true);
    assert_eq!(b.prefix(16).is_leaf(), false);
}

#[test]
fn test_proof_path_is_branch() {
    let b = ProofPath::from_raw(*b"\x00qwertyuiopasdfghjklzxcvbnm123456\xFF");
    assert_eq!(b.len(), 255);
    assert_eq!(b.is_leaf(), false);
}

#[test]
fn common_prefix_ignores_bits_before_the_start() {
    // The two keys differ at bit 0 only; from bit 1 on they are the same.
    let mut k1 = [0u8; 32];
    let mut k2 = [0u8; 32];
    k1[0] = 0b0000_0001;
    k2[0] = 0b0000_0000;
    k1[5] = 0x10;
    k2[5] = 0x10;
    let a = ProofPath::new(&k1).suffix(1);
    let b = ProofPath::new(&k2).suffix(1);
    assert_eq!(a.common_prefix(&b), 255);
    assert_eq!(b.common_prefix(&a), 255);
    assert_eq!(a, b);
}

#[test]
fn common_prefix_is_zero_for_different_starts() {
    let a = ProofPath::new(&[7u8; 32]);
    let b = a.suffix(3);
    assert_eq!(a.common_prefix(&b), 0);
    assert_eq!(b.common_prefix_len(&a), 0);
    assert!(!a.starts_with(&b));
}

#[test]
fn child_kind_not_flips_the_side() {
    assert_eq!(ChildKind::Left.not(), ChildKind::Right);
    assert_eq!(ChildKind::Right.not(), ChildKind::Left);
}

#[test]
fn write_clears_the_tail_of_a_branch() {
    for n in 0u16..256 {
        let p = ProofPath::new(&[0xFFu8; 32]).prefix(n);
        let mut buf = vec![0xAAu8; PROOF_PATH_SIZE];
        p.write(&mut buf);
        assert_eq!(buf[0], BRANCH_KEY_PREFIX);
        assert_eq!(buf[33], n as u8);
        for bit in 0u16..256 {
            let byte = buf[1 + (bit / 8) as usize];
            let set = (byte >> (bit % 8)) & 1 == 1;
            assert_eq!(set, bit < n);
        }
        let q = ProofPath::read(&buf);
        assert!(!q.is_leaf());
        assert_eq!(q.len(), n);
        assert_eq!(q, p);
        assert_eq!(q.as_bytes(), &buf[..]);
    }
}

#[test]
fn try_read_rejects_what_is_no_path() {
    assert!(ProofPath::try_read(&[0u8; 33]).is_none());
    assert!(ProofPath::try_read(&[0u8; 35]).is_none());
    let mut raw = [0u8; 34];
    raw[0] = LEAF_KEY_PREFIX;
    raw[33] = 4;
    assert!(ProofPath::try_read(&raw).is_none());
    raw[33] = 0;
    let p = ProofPath::try_read(&raw).unwrap();
    assert!(p.is_leaf());
    assert_eq!(p.end(), 256);
    assert_eq!(p.start(), 0);
    assert_eq!(p.raw_key(), &[0u8; 32]);
    assert!(!p.is_empty());
    assert_eq!(p.size(), 34);
}

#[test]
fn test_proof_path_debug_leaf() {
    let b = ProofPath::from_raw(*b"\x01qwertyuiopasdfghjklzxcvbnm123456\x00");
    let buf = b.debug_string();
    assert_eq!(
        buf,
        "ProofPath { start: 0, end: 256, bits: \"01110001|01110111|01100101|01110010|01110100|0111\
        1001|01110101|01101001|01101111|01110000|01100001|01110011|01100100|01100110|01100111|0110\
        1000|01101010|01101011|01101100|01111010|01111000|01100011|01110110|01100010|01101110|0110\
        1101|00110001|00110010|00110011|00110100|00110101|00110110|\" }"
    );
}

#[test]
fn test_proof_path_debug_branch() {
    let b = ProofPath::from_raw(*b"\x00qwertyuiopasdfghjklzxcvbnm123456\xF0").suffix(12);
    let buf = b.debug_string();
    assert_eq!(
        buf,
        "ProofPath { start: 12, end: 240, bits: \"________|0111____|01100101|01110010|01110100|011\
        11001|01110101|01101001|01101111|01110000|01100001|01110011|01100100|01100110|01100111|011\
        01000|01101010|01101011|01101100|01111010|01111000|01100011|01110110|01100010|01101110|011\
        01101|00110001|00110010|00110011|00110100|________|________|\" }"
    );
    assert_eq!(b.bit_picture().len(), 288);
}
