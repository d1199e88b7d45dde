use octree::{child_slot, decode, encode, prefix, OctreeError};

#[test]
fn encode_interleaves_msb_first() {
    // x = 101, y = 010, z = 110 give the groups 101, 011, 100.
    assert_eq!(encode(3, 5, 2, 6), Ok(0b101_011_100));
    assert_eq!(encode(1, 1, 0, 1), Ok(0b101));
    assert_eq!(encode(0, 0, 0, 0), Ok(0));
}

#[test]
fn encode_rejects_out_of_range() {
    assert_eq!(encode(3, 8, 0, 0), Err(OctreeError::InvalidCoordinate));
    assert_eq!(encode(3, 0, 0, 8), Err(OctreeError::InvalidCoordinate));
    assert_eq!(encode(22, 0, 0, 0), Err(OctreeError::Overflow));
}

#[test]
fn encode_widest_domain() {
    let m = (1u32 << 21) - 1;
    assert_eq!(encode(21, m, m, m), Ok((1u64 << 63) - 1));
}

#[test]
fn decode_inverts_encode() {
    assert_eq!(decode(3, 0b101_011_100), Ok((5, 2, 6)));
    for x in 0..8u32 {
        for y in 0..8u32 {
            for z in 0..8u32 {
                let a = encode(3, x, y, z).unwrap();
                assert!(a < 512);
                assert_eq!(decode(3, a), Ok((x, y, z)));
            }
        }
    }
}

#[test]
fn encode_is_a_bijection_on_small_domain() {
    let mut seen = vec![false; 512];
    for x in 0..8u32 {
        for y in 0..8u32 {
            for z in 0..8u32 {
                let a = encode(3, x, y, z).unwrap() as usize;
                assert!(!seen[a]);
                seen[a] = true;
            }
        }
    }
    assert!(seen.iter().all(|s| *s));
}

#[test]
fn decode_errors() {
    assert_eq!(decode(3, 512), Err(OctreeError::InvalidCoordinate));
    assert_eq!(decode(30, 0), Err(OctreeError::Overflow));
}

#[test]
fn prefix_and_child_slot() {
    let a = 0b101_011_100u64;
    assert_eq!(prefix(3, a, 0), Ok(0));
    assert_eq!(prefix(3, a, 1), Ok(0b101));
    assert_eq!(prefix(3, a, 2), Ok(0b101_011));
    assert_eq!(prefix(3, a, 3), Ok(a));
    assert_eq!(prefix(3, a, 4), Err(OctreeError::InvalidDepth));
    assert_eq!(child_slot(3, a, 1), Ok(5));
    assert_eq!(child_slot(3, a, 2), Ok(3));
    assert_eq!(child_slot(3, a, 3), Ok(4));
    assert_eq!(child_slot(3, a, 4), Err(OctreeError::InvalidDepth));
    assert_eq!(child_slot(40, a, 1), Err(OctreeError::Overflow));
}
