use bitops::find_first_one;
use bitops::find_last_one;

#[test]
fn test_find_first_one_1() {
    let bitarray: Vec<u64> = vec![
        0x0004000002000001u64,
        0x2000001000000800u64,
        0x0000800000400000u64,
        0x0000000000000300u64,
    ];

    assert_eq!(Some(100usize), find_first_one(&bitarray, 90, 256));
    assert_eq!(Some(200usize), find_first_one(&bitarray, 176, 256));
    assert_eq!(Some(200usize), find_first_one(&bitarray, 200, 256));
    assert_eq!(Some(201usize), find_first_one(&bitarray, 201, 256));
    assert_eq!(Some(100usize), find_first_one(&bitarray, 76, 125));
    assert_eq!(Some(50usize), find_first_one(&bitarray, 26, 75));
    assert_eq!(Some(0usize), find_first_one(&bitarray, 0, 256));
    assert_eq!(None, find_first_one(&bitarray, 1, 25));
    assert_eq!(None, find_first_one(&bitarray, 51, 75));
}

#[test]
fn test_find_last_one_1() {
    let bitarray: Vec<u64> = vec![
        0x0004000002000001u64,
        0x2000001000000800u64,
        0x0000000000000000u64,
        0x0000000000000300u64,
    ];

    assert_eq!(Some(201usize), find_last_one(&bitarray, 0, 256));
    assert_eq!(Some(200usize), find_last_one(&bitarray, 199, 201));
    assert_eq!(Some(201usize), find_last_one(&bitarray, 200, 256));
    assert_eq!(None, find_last_one(&bitarray, 202, 256));
    assert_eq!(Some(125usize), find_last_one(&bitarray, 0, 199));
    assert_eq!(Some(100usize), find_last_one(&bitarray, 0, 125));
    assert_eq!(Some(201usize), find_last_one(&bitarray, 0, 256));
    assert_eq!(None, find_last_one(&bitarray, 126, 200));
    assert_eq!(None, find_last_one(&bitarray, 51, 75));
}

#[test]
fn test_search_empty_range() {
    let bitarray: Vec<u64> = vec![0xffffffffffffffffu64, 0xffffffffffffffffu64];
    assert_eq!(None, find_first_one(&bitarray, 0, 0));
    assert_eq!(None, find_first_one(&bitarray, 77, 77));
    assert_eq!(None, find_first_one(&bitarray, 128, 128));
    assert_eq!(None, find_last_one(&bitarray, 0, 0));
    assert_eq!(None, find_last_one(&bitarray, 77, 77));
    assert_eq!(None, find_last_one(&bitarray, 128, 128));
}

#[test]
fn test_search_empty_array() {
    // An empty range must answer without reading any word, even when
    // there is no word to read.
    let empty: Vec<u64> = Vec::new();
    assert_eq!(None, find_first_one(&empty, 0, 0));
    assert_eq!(None, find_last_one(&empty, 0, 0));
}

#[test]
fn test_search_boundaries() {
    // Bit 64 is the first bit of the second word, bit 63 the last of the
    // first: mid-word and word-aligned range ends must agree.
    let bitarray: Vec<u64> = vec![0x8000000000000000u64, 0x0000000000000001u64];
    assert_eq!(Some(63usize), find_first_one(&bitarray, 0, 64));
    assert_eq!(Some(63usize), find_first_one(&bitarray, 63, 64));
    assert_eq!(Some(63usize), find_first_one(&bitarray, 1, 128));
    assert_eq!(Some(64usize), find_first_one(&bitarray, 64, 128));
    assert_eq!(None, find_first_one(&bitarray, 65, 128));
    assert_eq!(Some(64usize), find_last_one(&bitarray, 0, 128));
    assert_eq!(Some(64usize), find_last_one(&bitarray, 0, 65));
    assert_eq!(Some(63usize), find_last_one(&bitarray, 0, 64));
    assert_eq!(None, find_last_one(&bitarray, 0, 63));
}
