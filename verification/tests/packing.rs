use bin_encode_decode::packing::{pack_triple, unpack_quad, DATA_SYMBOLS};

#[test]
fn data_symbols_is_sixty_four() {
    assert_eq!(DATA_SYMBOLS, 64);
}

#[test]
fn unpack_quad_regroups_six_bit_indices() {
    assert_eq!(unpack_quad(0, 0, 1, 52), [0, 0, 116]);
    assert_eq!(unpack_quad(19, 22, 5, 46), [77, 97, 110]);
    assert_eq!(unpack_quad(63, 63, 63, 63), [255, 255, 255]);
    assert_eq!(unpack_quad(0, 0, 0, 0), [0, 0, 0]);
    assert_eq!(unpack_quad(16, 16, 1, 2), [65, 0, 66]);
}

#[test]
fn unpack_quad_lets_a_large_index_reach_into_its_neighbours() {
    assert_eq!(unpack_quad(64, 0, 0, 0), [0, 0, 0]);
    assert_eq!(unpack_quad(0, 64, 0, 0), [4, 0, 0]);
    assert_eq!(unpack_quad(0, 0, 64, 0), [0, 16, 0]);
    assert_eq!(unpack_quad(0, 0, 0, 64), [0, 0, 64]);
    assert_eq!(unpack_quad(0, 0, 0, 256), [0, 1, 0]);
    assert_eq!(unpack_quad(0, 0, 257, 0), [0, 64, 64]);
    assert_eq!(unpack_quad(299, 0, 0, 0), [172, 0, 0]);
    assert_eq!(unpack_quad(16, 277, 1, 2), [81, 80, 66]);
}

#[test]
fn unpack_quad_takes_the_largest_index() {
    let bytes: [u8; 3] = unpack_quad(usize::MAX, usize::MAX, usize::MAX, usize::MAX);
    assert_eq!(bytes, [255, 255, 255]);
}

#[test]
fn pack_triple_splits_into_six_bit_indices() {
    assert_eq!(pack_triple(77, 97, 110), [19, 22, 5, 46]);
    assert_eq!(pack_triple(0, 0, 116), [0, 0, 1, 52]);
    assert_eq!(pack_triple(255, 255, 255), [63, 63, 63, 63]);
    assert_eq!(pack_triple(0, 0, 0), [0, 0, 0, 0]);
    assert_eq!(pack_triple(77, 0, 0), [19, 16, 0, 0]);
    assert_eq!(pack_triple(77, 97, 0), [19, 22, 4, 0]);
}

#[test]
fn unpack_quad_undoes_pack_triple() {
    let mut b0: u16 = 0;
    while b0 < 256 {
        let mut b1: u16 = 0;
        while b1 < 256 {
            let x: u8 = b0 as u8;
            let y: u8 = b1 as u8;
            let z: u8 = (b0 ^ (b1 * 7)) as u8;
            let quad: [usize; 4] = pack_triple(x, y, z);
            assert!(quad.iter().all(|i| *i < 64));
            assert_eq!(unpack_quad(quad[0], quad[1], quad[2], quad[3]), [x, y, z]);
            b1 += 5;
        }
        b0 += 3;
    }
}
