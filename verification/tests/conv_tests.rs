use select_simd::conv::conv_atoi64;

#[test]
fn test_conv_atoi64() {
    let numbers = String::from(
        r#"
1,22,333,4444,55555,666666,7777777,88888888,999999999,1111111111,22222222222,333333333333,
2,3,4,5,6,7,8,9,10,100,1000,10000,100000,1000000,10000000,100000000,0,00,000,0000,00000,
01,02,03,04,05,06,07,08,09,010,0100,01000,0009,00099,000999,0009999,00099999,000999999,
0009999999,00099999999,000999999999,0009999999999,
9876543210,876543210,76543210,6543210,543210,43210,3210,210,10
"#,
    );

    let position_vec: Vec<Vec<u64>> = vec![
        vec![1, 3, 6, 10, 15, 21, 28, 36],
        vec![45, 55, 66, 78, 92, 94, 96, 98],
        vec![100, 102, 104, 106, 108, 111, 115, 120],
        vec![126, 133, 141, 150, 160, 162, 165, 169],
        vec![174, 181, 184, 187, 190, 193, 196, 199],
        vec![202, 205, 208, 212, 217, 223, 228, 234],
        vec![241, 249, 258, 269, 280, 292, 305, 320],
        vec![331, 341, 350, 358, 365, 371, 376, 380],
    ];

    let expected: &[i64] = &[
        1,
        22,
        333,
        4444,
        55555,
        666666,
        7777777,
        88888888,
        999999999,
        1111111111,
        22222222222,
        333333333333,
        2,
        3,
        4,
        5,
        6,
        7,
        8,
        9,
        10,
        100,
        1000,
        10000,
        100000,
        1000000,
        10000000,
        100000000,
        0,
        0,
        0,
        0,
        0,
        1,
        2,
        3,
        4,
        5,
        6,
        7,
        8,
        9,
        10,
        100,
        1000,
        9,
        99,
        999,
        9999,
        99999,
        999999,
        9999999,
        99999999,
        999999999,
        9999999999,
        9876543210,
        876543210,
        76543210,
        6543210,
        543210,
        43210,
        3210,
        210,
        10,
    ];

    for (i, v) in position_vec.iter().enumerate() {
        let mut i64s_vec: Vec<i64> = vec![11223344; 8];
        conv_atoi64(numbers.as_bytes(), v, &mut i64s_vec);

        assert_eq!(i64s_vec, &expected[i * 8..(i + 1) * 8]);
    }
}

#[test]
fn conv_non_digits_and_end_of_message_give_zero() {
    let msg = b"-12,+7,x,45";
    let idx: Vec<u64> = vec![0, 1, 4, 5, 7, 9, 11, 1000];
    let mut out: Vec<i64> = vec![-1; 10];
    conv_atoi64(msg, &idx, &mut out);
    assert_eq!(out, vec![0, 12, 0, 7, 0, 45, 0, 0, -1, -1]);
}

#[test]
fn conv_wraps_on_overflow() {
    // 9223372036854775807 is i64::MAX; one more wraps to i64::MIN.
    let msg = b"9223372036854775807,9223372036854775808,18446744073709551616,99999999999999999999";
    let idx: Vec<u64> = vec![0, 20, 40, 61, 0, 0, 0, 0];
    let mut out: Vec<i64> = vec![0; 8];
    conv_atoi64(msg, &idx, &mut out);
    assert_eq!(out[0], i64::MAX);
    assert_eq!(out[1], i64::MIN);
    assert_eq!(out[2], 0);
    assert_eq!(out[3], 99999999999999999999u128 as u64 as i64);
}
