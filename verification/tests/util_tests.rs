use select_simd::util::{encode_u32_le, index_and, index_or};

#[test]
fn test_index_and() {
    let left_vec: Vec<i32> = vec![100, 300, 400, 600, 800, 850];
    let right_vec: Vec<i32> = vec![100, 200, 300, 400, 500, 700, 800, 900, 1000];
    let expected: &[i32] = &[100, 300, 400, 800];

    let anded = index_and(&left_vec, &right_vec);
    assert_eq!(anded, expected);
}

#[test]
fn test_index_or() {
    let left_vec: Vec<i32> = vec![100, 300, 400, 600, 800, 850];
    let right_vec: Vec<i32> = vec![100, 200, 300, 400, 500, 700, 800, 900, 1000];
    let expected: &[i32] = &[100, 200, 300, 400, 500, 600, 700, 800, 850, 900, 1000];

    let orred = index_or(&left_vec, &right_vec);
    assert_eq!(orred, expected);

    let orred_rev = index_or(&right_vec, &left_vec);
    assert_eq!(orred_rev, expected);
}

#[test]
fn index_and_is_commutative_on_sorted_lists() {
    let a: Vec<i32> = vec![-5, 1, 2, 9, 40];
    let b: Vec<i32> = vec![-5, 2, 3, 40, 41];
    assert_eq!(index_and(&a, &b), vec![-5, 2, 40]);
    assert_eq!(index_and(&b, &a), vec![-5, 2, 40]);
}

#[test]
fn index_and_or_with_empty_list() {
    let a: Vec<i32> = vec![1, 2, 3];
    let e: Vec<i32> = vec![];
    assert_eq!(index_and(&a, &e), Vec::<i32>::new());
    assert_eq!(index_and(&e, &a), Vec::<i32>::new());
    assert_eq!(index_or(&a, &e), vec![1, 2, 3]);
    assert_eq!(index_or(&e, &a), vec![1, 2, 3]);
}

#[test]
fn index_or_on_disjoint_lists_interleaves() {
    let a: Vec<i32> = vec![1, 4, 7];
    let b: Vec<i32> = vec![2, 3, 8, 9];
    assert_eq!(index_or(&a, &b), vec![1, 2, 3, 4, 7, 8, 9]);
    assert_eq!(index_and(&a, &b), Vec::<i32>::new());
}

#[test]
fn index_merges_follow_the_walk_on_unsorted_input() {
    // The merge walk is defined for any input; on unsorted lists it keeps
    // the heads it meets in order.
    let a: Vec<i32> = vec![5, 1];
    let b: Vec<i32> = vec![1, 5];
    assert_eq!(index_and(&a, &b), vec![5]);
    assert_eq!(index_or(&a, &b), vec![1, 5, 1]);
}

#[test]
fn encode_writes_little_endian_words() {
    let data: Vec<u32> = vec![0x0403_0201, 0, 0xFFFF_FFFF, 207];
    let bytes = encode_u32_le(&data);
    assert_eq!(
        bytes,
        vec![1, 2, 3, 4, 0, 0, 0, 0, 0xFF, 0xFF, 0xFF, 0xFF, 207, 0, 0, 0]
    );
    for (i, w) in data.iter().enumerate() {
        let b = &bytes[4 * i..4 * i + 4];
        let back = b[0] as u32 | (b[1] as u32) << 8 | (b[2] as u32) << 16 | (b[3] as u32) << 24;
        assert_eq!(back, *w);
    }
    assert_eq!(encode_u32_le(&Vec::new()), Vec::<u8>::new());
}

#[test]
fn index_or_absorbs_intersection() {
    let a: Vec<i32> = vec![1, 1, 3, 5, 8];
    let b: Vec<i32> = vec![1, 2, 5, 5, 9];
    assert_eq!(index_or(&a, &index_and(&a, &b)), a);
}

#[test]
fn index_and_distributes_over_index_or() {
    let a: Vec<i32> = vec![1, 3, 5, 7, 9];
    let b: Vec<i32> = vec![1, 2, 3, 4];
    let c: Vec<i32> = vec![3, 7, 8];
    let lhs = index_or(&index_and(&a, &b), &index_and(&a, &c));
    let rhs = index_and(&a, &index_or(&b, &c));
    assert_eq!(lhs, vec![1, 3, 7]);
    assert_eq!(lhs, rhs);
}

#[test]
fn index_and_is_associative_and_monotone() {
    let a: Vec<i32> = vec![2, 4, 6, 8, 10];
    let b: Vec<i32> = vec![4, 6, 10];
    let c: Vec<i32> = vec![1, 4, 6, 7, 10, 11];
    assert_eq!(index_and(&index_and(&a, &b), &c), index_and(&a, &index_and(&b, &c)));
    // b is contained in c, so a & b is contained in a & c.
    let ab = index_and(&a, &b);
    let ac = index_and(&a, &c);
    assert!(ab.iter().all(|x| ac.contains(x)));
}

#[test]
fn index_or_is_idempotent_and_associative_with_duplicates() {
    let a: Vec<i32> = vec![1, 1, 2, 4, 4, 4];
    let b: Vec<i32> = vec![1, 3, 4, 4, 6];
    let c: Vec<i32> = vec![0, 1, 1, 1, 4, 7];
    assert_eq!(index_or(&a, &a), a);
    let ab = index_or(&a, &b);
    assert_eq!(ab, vec![1, 1, 2, 3, 4, 4, 4, 6]);
    assert_eq!(index_or(&ab, &b), ab);
    assert_eq!(index_or(&ab, &c), index_or(&a, &index_or(&b, &c)));
}

#[test]
fn index_and_laws_hold_with_duplicates() {
    let a: Vec<i32> = vec![1, 1, 2, 4, 4, 4];
    let b: Vec<i32> = vec![1, 3, 4, 4, 6];
    let c: Vec<i32> = vec![0, 1, 1, 1, 4, 7];
    assert_eq!(index_and(&index_and(&a, &b), &c), index_and(&a, &index_and(&b, &c)));
    let lhs = index_or(&index_and(&a, &b), &index_and(&a, &c));
    assert_eq!(lhs, vec![1, 1, 4, 4]);
    assert_eq!(lhs, index_and(&a, &index_or(&b, &c)));
}
