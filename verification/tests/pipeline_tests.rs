use select_simd::eval::eval_string_equal;
use select_simd::parse::{detect_separator, lanes_fit_exec};
use select_simd::query::{query, try_query, HONDA};
use select_simd::scan::scan_delimiter;

/// A line of `width` bytes (newline included) with eleven comma-separated
/// fields; field 8 is the make and field 5 is `10 * row + 5`.
fn csv_line(row: usize, make: &str, width: usize) -> String {
    let mut s = format!(
        "r{},{},{},{},{},{},{},{},{},{},",
        row,
        10 * row + 1,
        10 * row + 2,
        10 * row + 3,
        10 * row + 4,
        10 * row + 5,
        10 * row + 6,
        10 * row + 7,
        make,
        10 * row + 9
    );
    while s.len() < width - 1 {
        s.push('z');
    }
    s.push('\n');
    s
}

fn csv(rows: usize, width: usize) -> Vec<u8> {
    let mut out = String::new();
    for r in 0..rows {
        let make = if r % 3 == 0 { "HONDA" } else { "TOYOTA" };
        out.push_str(&csv_line(r, make, width));
    }
    out.into_bytes()
}

/// Position just after the `n`-th comma at or after `from`.
fn after_nth_comma(msg: &[u8], from: usize, n: usize) -> usize {
    let mut seen = 0;
    let mut p = from;
    loop {
        if msg[p] == b',' {
            seen += 1;
            if seen == n {
                return p + 1;
            }
        }
        p += 1;
    }
}

#[test]
fn scan_finds_line_starts_in_blocks() {
    let msg = csv(40, 100);
    let mut indices: Vec<u32> = vec![7; 48];
    let end = scan_delimiter(&msg, &mut indices, 0, 0x0a);
    // Two full blocks, then a third in which the newlines run out after
    // eight lines; it is padded with the last line start, 4000.
    let mut starts: Vec<u32> = (0..41).map(|i| 100 * i as u32).collect();
    starts.extend(std::iter::repeat(4000).take(7));
    assert_eq!(indices, starts);
    assert_eq!(end, 4000);
}

#[test]
fn scan_stops_when_the_buffer_is_full() {
    let msg = csv(40, 100);
    let mut indices: Vec<u32> = vec![7; 32];
    let end = scan_delimiter(&msg, &mut indices, 0, 0x0a);
    let starts: Vec<u32> = (0..32).map(|i| 100 * i as u32).collect();
    assert_eq!(indices, starts);
    assert_eq!(end, 3200);
}

#[test]
fn scan_pads_a_block_when_lines_run_out() {
    let msg = csv(5, 100);
    let mut indices: Vec<u32> = vec![7; 32];
    let end = scan_delimiter(&msg, &mut indices, 0, 0x0a);
    let mut expected: Vec<u32> = vec![0, 100, 200, 300, 400, 500];
    expected.extend(std::iter::repeat(500).take(10));
    expected.extend(std::iter::repeat(7).take(16));
    assert_eq!(indices, expected);
    assert_eq!(end, 500);
}

#[test]
fn scan_stops_near_the_end_of_the_message() {
    // 16 lines and a 50-byte tail: the 16th newline is at 1599; its chunk
    // ends at 1600 and 1600 + 64 >= 1650, so only one block is written.
    let mut msg = csv(16, 100);
    msg.extend(std::iter::repeat(b'x').take(50));
    let mut indices: Vec<u32> = vec![9; 32];
    let end = scan_delimiter(&msg, &mut indices, 0, 0x0a);
    let mut expected: Vec<u32> = (0..16).map(|i| 100 * i as u32).collect();
    expected.extend(std::iter::repeat(9).take(16));
    assert_eq!(indices, expected);
    assert_eq!(end, 1600);
}

#[test]
fn scan_from_unaligned_start_sees_its_whole_chunk() {
    // Newlines at 20 and 100; a scan from 10 examines every byte from 10 on.
    let mut msg = vec![b'a'; 300];
    msg[20] = b'\n';
    msg[100] = b'\n';
    let mut indices: Vec<u32> = vec![0; 16];
    let end = scan_delimiter(&msg, &mut indices, 10, 0x0a);
    let mut expected: Vec<u32> = vec![10, 21, 101];
    expected.extend(std::iter::repeat(101).take(13));
    assert_eq!(indices, expected);
    assert_eq!(end, 101);
}

#[test]
fn scan_resumes_where_it_stopped() {
    // Lines of 70 bytes: resuming at the returned (unaligned) position
    // continues with the same line starts as one longer scan.
    let msg = csv(80, 70);
    let mut whole: Vec<u32> = vec![0; 64];
    let end_whole = scan_delimiter(&msg, &mut whole, 0, 0x0a);
    let mut first: Vec<u32> = vec![0; 32];
    let end_first = scan_delimiter(&msg, &mut first, 0, 0x0a);
    assert_eq!(end_first, 32 * 70);
    let mut second: Vec<u32> = vec![0; 32];
    let end_second = scan_delimiter(&msg, &mut second, end_first, 0x0a);
    first.extend(second);
    assert_eq!(first, whole);
    assert_eq!(end_second, end_whole);
    assert_eq!(end_whole, 64 * 70);
}

#[test]
fn scan_uses_the_low_byte_of_the_delimiter() {
    let msg = b"a;b;c;d".to_vec();
    let mut indices: Vec<u32> = vec![0; 16];
    let end = scan_delimiter(&msg, &mut indices, 0, 0x13b);
    assert_eq!(&indices[..4], &[0, 2, 4, 6]);
    assert_eq!(end, 6);
}

#[test]
fn detect_finds_the_eighth_comma_of_each_line() {
    let msg = csv(40, 100);
    let indices: Vec<u32> = (0..48).map(|i| 100 * i as u32).collect();
    let mut fields: Vec<u32> = vec![3; 48];
    detect_separator(&msg, &indices, &mut fields, 8, 0x2c);
    for k in 0..32 {
        assert_eq!(fields[k] as usize, after_nth_comma(&msg, 100 * k, 8));
    }
    // The last block is not processed.
    assert_eq!(&fields[32..], &[3u32; 16][..]);
    // The field found is the make.
    assert_eq!(&msg[fields[0] as usize..fields[0] as usize + 5], b"HONDA");
}

#[test]
fn detect_with_one_more_separator_finds_the_next_field() {
    let msg = csv(40, 100);
    let indices: Vec<u32> = (0..48).map(|i| 100 * i as u32).collect();
    let mut eighth: Vec<u32> = vec![0; 32];
    let mut ninth: Vec<u32> = vec![0; 32];
    detect_separator(&msg, &indices, &mut eighth, 8, 0x2c);
    detect_separator(&msg, &indices, &mut ninth, 9, 0x2c);
    for k in 0..32 {
        assert!(eighth[k] < ninth[k]);
        assert_eq!(msg[ninth[k] as usize - 1], b',');
        assert!(msg[eighth[k] as usize..ninth[k] as usize - 1].iter().all(|&c| c != b','));
    }
}

#[test]
fn detect_gives_zero_for_lines_without_enough_separators() {
    let mut msg = vec![b'x'; 32 * 10];
    for k in 0..32 {
        msg[10 * k + 9] = b'\n';
        msg[10 * k + 2] = b',';
    }
    let indices: Vec<u32> = (0..32).map(|i| 10 * i as u32).collect();
    let mut fields: Vec<u32> = vec![1; 16];
    detect_separator(&msg, &indices, &mut fields, 1, 0x2c);
    assert_eq!(fields, (0..16).map(|i| 10 * i as u32 + 3).collect::<Vec<u32>>());
    let mut fields: Vec<u32> = vec![1; 16];
    detect_separator(&msg, &indices, &mut fields, 5, 0x2c);
    assert_eq!(fields, vec![0u32; 16]);
}

#[test]
fn detect_short_line_sees_its_last_bytes_again() {
    // Line 0 has one comma, in its last four-byte group; line 1 is long, so
    // the rounds go on and line 0 keeps seeing that comma until its count
    // of 5 runs out, at position 25, past its end at 9.
    let mut text = String::from("xxxxxxxx,\n");
    text.push_str(&"y".repeat(99));
    text.push('\n');
    for _ in 0..40 {
        text.push_str("z\n");
    }
    let msg = text.into_bytes();
    let mut indices: Vec<u32> = vec![0, 10];
    for k in 0..30 {
        indices.push(110 + 2 * k);
    }
    let mut fields: Vec<u32> = vec![7; 16];
    detect_separator(&msg, &indices, &mut fields, 5, 0x2c);
    assert_eq!(fields[0], 25);
    assert_eq!(&fields[1..], &[0u32; 15][..]);
}

#[test]
fn lanes_fit_checks_positions_below_two_to_the_31() {
    let small: Vec<u32> = (0..32).map(|i| 100 * i).collect();
    assert!(lanes_fit_exec(&small));
    let mut big: Vec<u32> = (0..32).map(|i| 0x4000_0000 + i).collect();
    assert!(lanes_fit_exec(&big));
    big[16] = 0xC000_0000;
    assert!(!lanes_fit_exec(&big));
    let short: Vec<u32> = vec![0xFFFF_FFFF; 16];
    assert!(lanes_fit_exec(&short));
}

#[test]
fn eval_collects_rows_whose_field_matches() {
    let msg = csv(100, 100);
    let indices: Vec<u32> = (0..64).map(|i| after_nth_comma(&msg, 100 * i, 8) as u32).collect();
    let mut active: Vec<u32> = vec![0; 32];
    let n = eval_string_equal(&msg, &indices, HONDA, &mut active);
    assert_eq!(n, 22);
    for k in 0..22 {
        assert_eq!(active[k], indices[3 * k]);
    }
    assert_eq!(&active[22..], &[0u32; 10][..]);
}

#[test]
fn eval_counts_matches_beyond_the_buffer() {
    let msg = csv(100, 100);
    let indices: Vec<u32> = (0..128).map(|i| after_nth_comma(&msg, 100 * (i % 100), 8) as u32).collect();
    let mut active: Vec<u32> = vec![0; 4];
    let n = eval_string_equal(&msg, &indices, HONDA, &mut active);
    // The first group of 64 already yields 22 matches, more than 4, so the
    // search stops there; only 4 are stored.
    assert_eq!(n, 22);
    assert_eq!(active, vec![indices[0], indices[3], indices[6], indices[9]]);
}

#[test]
fn eval_positions_past_the_end_do_not_match() {
    let msg = b"HONDHOND".to_vec();
    let mut indices: Vec<u32> = vec![6; 64];
    indices[0] = 0;
    indices[1] = 4;
    indices[2] = 5;
    indices[3] = 0xFFFF_FFFF;
    let mut active: Vec<u32> = vec![9; 4];
    let n = eval_string_equal(&msg, &indices, HONDA, &mut active);
    assert_eq!(n, 2);
    assert_eq!(active, vec![0, 4, 9, 9]);
}

#[test]
fn query_converts_fields_of_matching_rows() {
    let msg = csv(2100, 100);
    let res = query(&msg, 2100);
    assert_eq!(try_query(&msg, 2100), Some(res.clone()));
    // For the k-th HONDA row (row 3k), counting eight commas from its make
    // field leads to field 6 of the following row.
    let expected: Vec<i64> = (0..8).map(|k| 10 * (3 * k + 1) + 6).collect();
    assert_eq!(res, expected);
}
