use bitops::backward_iter_ones;
use bitops::find_first_one;
use bitops::find_last_one;
use bitops::iter_ones;

#[test]
fn test_iter_ones_1() {
    let bitarray: Vec<u64> = vec![
        0x0004000002000001u64,
        0x2000001000000800u64,
        0x0000800000400000u64,
        0x0000000000000300u64,
    ];

    let mut k: i32 = 0;

    let mut vec: Vec<usize> = Vec::new();
    let mut it = iter_ones(&bitarray, 80, 200);
    while let Some(i) = it.next() {
        k += 1;
        assert!(k < 100);
        println!("Found a one: {}", i);
        vec.push(i);
    }
    assert_eq!([100usize, 125, 150, 175], *vec);

    vec.clear();
    let mut it = iter_ones(&bitarray, 80, 201);
    while let Some(i) = it.next() {
        k += 1;
        assert!(k < 100);
        println!("Found a one: {}", i);
        vec.push(i);
    }
    assert_eq!([100usize, 125, 150, 175, 200], *vec);

    vec.clear();
    let mut it = iter_ones(&bitarray, 0, 51);
    while let Some(i) = it.next() {
        k += 1;
        assert!(k < 100);
        println!("Found a one: {}", i);
        vec.push(i);
    }
    assert_eq!([0usize, 25, 50], *vec);

    vec.clear();
    let mut it = iter_ones(&bitarray, 74, 76);
    while let Some(i) = it.next() {
        k += 1;
        assert!(k < 100);
        println!("Found a one: {}", i);
        vec.push(i);
    }
    assert_eq!([75usize], *vec);

    vec.clear();
    let mut it = iter_ones(&bitarray, 128, 256);
    while let Some(i) = it.next() {
        k += 1;
        assert!(k < 100);
        println!("Found a one: {}", i);
        vec.push(i);
    }
    assert_eq!([150usize, 175, 200, 201], *vec);
}

#[test]
fn bits_test_iter_ones_1() {
    let bitarray: Vec<u64> = vec![
        0x0004000002000001u64,
        0x2000001000000800u64,
        0x0000800000400000u64,
        0x0000000000000100u64,
    ];

    let mut vec: Vec<usize> = Vec::new();
    let mut it = iter_ones(&bitarray, 80, 200);
    while let Some(i) = it.next() {
        println!("Found a one: {}", i);
        vec.push(i);
    }
    assert_eq!([100usize, 125, 150, 175], *vec);

    vec.clear();
    let mut it = iter_ones(&bitarray, 0, 51);
    while let Some(i) = it.next() {
        println!("Found a one: {}", i);
        vec.push(i);
    }
    assert_eq!([0usize, 25, 50], *vec);
}

#[test]
fn test_backward_iter_ones_1() {
    let bitarray: Vec<u64> = vec![
        0x0004000002000001u64,
        0x2000001000000800u64,
        0x0000800000400000u64,
        0x0000000000000300u64,
    ];

    let mut vec: Vec<usize> = Vec::new();
    let mut it = backward_iter_ones(&bitarray, 80, 200);
    while let Some(i) = it.next() {
        println!("Found a one: {}", i);
        vec.push(i);
    }
    assert_eq!([175usize, 150, 125, 100], *vec);

    vec.clear();
    let mut it = backward_iter_ones(&bitarray, 0, 51);
    while let Some(i) = it.next() {
        println!("Found a one: {}", i);
        vec.push(i);
    }
    assert_eq!([50usize, 25, 0], *vec);

    vec.clear();
    let mut it = backward_iter_ones(&bitarray, 74, 76);
    while let Some(i) = it.next() {
        println!("Found a one: {}", i);
        vec.push(i);
    }
    assert_eq!([75usize], *vec);

    vec.clear();
    let mut it = backward_iter_ones(&bitarray, 128, 256);
    while let Some(i) = it.next() {
        println!("Found a one: {}", i);
        vec.push(i);
    }
    assert_eq!([201usize, 200, 175, 150], *vec);
}

#[test]
fn test_iter_empty_range() {
    let bitarray: Vec<u64> = vec![0xffffffffffffffffu64];
    let mut it = iter_ones(&bitarray, 17, 17);
    assert_eq!(None, it.next());
    assert_eq!(None, it.next());
    let mut bit = backward_iter_ones(&bitarray, 17, 17);
    assert_eq!(None, bit.next());
    assert_eq!(None, bit.next());
    // The empty range at the very end of the array: constructing must
    // not read the word the offset would name, which does not exist.
    let mut it = iter_ones(&bitarray, 64, 64);
    assert_eq!(None, it.next());
    let mut bit = backward_iter_ones(&bitarray, 64, 64);
    assert_eq!(None, bit.next());
}

#[test]
fn test_iter_empty_array() {
    let empty: Vec<u64> = Vec::new();
    let mut it = iter_ones(&empty, 0, 0);
    assert_eq!(None, it.next());
    let mut bit = backward_iter_ones(&empty, 0, 0);
    assert_eq!(None, bit.next());
}

#[test]
fn test_iter_zero_run_before_final_word() {
    // The words between the first set bit and the range's final word are
    // all zero; the final word must still be examined under its end mask.
    let bitarray: Vec<u64> = vec![0x0u64, 0x0u64, 0x0000000000000101u64];
    let mut vec: Vec<usize> = Vec::new();
    let mut it = iter_ones(&bitarray, 0, 134);
    while let Some(i) = it.next() {
        vec.push(i);
    }
    assert_eq!([128usize], *vec);
}

#[test]
fn test_first_pull_agrees_with_search() {
    let bitarray: Vec<u64> = vec![
        0x0004000002000001u64,
        0x2000001000000800u64,
        0x0000800000400000u64,
        0x0000000000000300u64,
    ];
    let ranges: [(usize, usize); 6] = [(0, 256), (90, 256), (51, 75), (80, 200), (74, 76), (0, 0)];
    for (offset, limit) in ranges {
        let mut fwd = iter_ones(&bitarray, offset, limit);
        assert_eq!(find_first_one(&bitarray, offset, limit), fwd.next());
        let mut bwd = backward_iter_ones(&bitarray, offset, limit);
        assert_eq!(find_last_one(&bitarray, offset, limit), bwd.next());
    }
}
