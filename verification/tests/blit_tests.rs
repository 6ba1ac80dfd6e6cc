use bitops::blit;

#[test]
fn test_blit_1() {
    let src_bits: Vec<u64> = vec![
        0x1010101010101010u64,
        0x2323230320232323u64,
        0x4515454545451545u64,
        0x6767676767676717u64,
    ];
    let mut dst_bits: Vec<u64> = vec![
        0x8989898989898989u64,
        0xababababababababu64,
        0xcdcdcdcdcdcdcdcdu64,
        0xefefefefefefefefu64,
    ];
    let control_bits: Vec<u64> = vec![
        0x2023898989898989u64,
        0x4545154523232303u64,
        0xcdcdcd1745154545u64,
        0xefefefefefefefefu64,
    ];

    let control_str = format!(
        "{:x}{:x}{:x}{:x}",
        control_bits[3], control_bits[2], control_bits[1], control_bits[0]
    );

    blit(&src_bits, 80, &mut dst_bits, 48, 120);

    let test_str = format!(
        "{:x}{:x}{:x}{:x}",
        dst_bits[3], dst_bits[2], dst_bits[1], dst_bits[0]
    );

    assert_eq!(control_str, test_str);
}

#[test]
fn bits_test_blit_1() {
    let src_bits: Vec<u64> = vec![
        0x1010101010101010u64,
        0x2323230320232323u64,
        0x4515454545451545u64,
        0x6767676767676717u64,
    ];
    let mut dst_bits: Vec<u64> = vec![
        0x8989898989898989u64,
        0xababababababababu64,
        0xcdcdcdcdcdcdcdcdu64,
        0xefefefefefefefefu64,
    ];
    let control_bits: Vec<u64> = vec![
        0x2023898989898989u64,
        0x4545154523232303u64,
        0xcdcdcd1745154545u64,
        0xefefefefefefefefu64,
    ];

    let control_str = format!(
        "{:x}{:x}{:x}{:x}",
        control_bits[3], control_bits[2], control_bits[1], control_bits[0]
    );

    blit(&src_bits, 80, &mut dst_bits, 48, 120);

    let test_str = format!(
        "{:x}{:x}{:x}{:x}",
        dst_bits[3], dst_bits[2], dst_bits[1], dst_bits[0]
    );

    assert_eq!(control_str, test_str);
}

#[test]
fn test_blit_self_copy_unchanged() {
    let src: Vec<u64> = vec![0x0123456789abcdefu64, 0xfedcba9876543210u64, 0x5a5a5a5a5a5a5a5au64];
    let mut dst: Vec<u64> = src.clone();
    blit(&src, 37, &mut dst, 37, 100);
    assert_eq!(src, dst);
}

#[test]
fn test_blit_zero_count() {
    let src: Vec<u64> = vec![0xffffffffffffffffu64];
    let mut dst: Vec<u64> = vec![0x0u64];
    blit(&src, 10, &mut dst, 20, 0);
    assert_eq!(vec![0x0u64], dst);
    // An empty run at the very end of both arrays must not read the
    // words those offsets would name, which do not exist.
    blit(&src, 64, &mut dst, 64, 0);
    assert_eq!(vec![0x0u64], dst);
}

#[test]
fn test_blit_leaves_outside_bits() {
    let src: Vec<u64> = vec![0x0u64, 0x0u64];
    let mut dst: Vec<u64> = vec![0xffffffffffffffffu64, 0xffffffffffffffffu64];
    // Clearing bits 60..68 must keep every bit outside that range.
    blit(&src, 5, &mut dst, 60, 8);
    assert_eq!(vec![0x0fffffffffffffffu64, 0xfffffffffffffff0u64], dst);
}

#[test]
fn test_blit_within_one_word() {
    let src: Vec<u64> = vec![0x00000000000000f0u64];
    let mut dst: Vec<u64> = vec![0x0u64];
    // Bits 4..8 of the source are all ones; place them at bits 1..5.
    blit(&src, 4, &mut dst, 1, 4);
    assert_eq!(vec![0x000000000000001eu64], dst);
}

#[test]
fn test_blit_word_aligned() {
    let src: Vec<u64> = vec![0x1111111111111111u64, 0x2222222222222222u64];
    let mut dst: Vec<u64> = vec![0xffffffffffffffffu64, 0xffffffffffffffffu64];
    blit(&src, 0, &mut dst, 0, 128);
    assert_eq!(src, dst);
}

#[test]
fn test_blit_straddles_boundaries() {
    let src: Vec<u64> = vec![0x8000000000000000u64, 0x0000000000000001u64];
    let mut dst: Vec<u64> = vec![0x0u64, 0x0u64];
    // Bits 63 and 64 of the source are set; copy bits 63..66 to 62..65.
    blit(&src, 63, &mut dst, 62, 3);
    assert_eq!(vec![0xc000000000000000u64, 0x0000000000000000u64], dst);
}
