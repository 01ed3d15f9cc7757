use vstd::prelude::*;
use crate::conv::{conv_atoi64, converted};
use crate::eval::{eval_string_equal, lemma_reported_rows_match, matched, pattern_at};
use crate::parse::{detect_separator, lanes_fit, lanes_fit_exec, lemma_small_starts_fit, separated_indices};
use crate::scan::{scan_delimiter, scanned_indices};

verus! {

/// The pattern `HOND` as a little-endian word.
pub const HONDA: u32 = 0x444e4f48;

/// Room for matching rows in a query.
pub const ACTIVE_LEN: usize = 2048;

/// Line feed, the record delimiter.
pub const NEWLINE: u64 = 0x0a;

/// Comma, the field separator.
pub const COMMA: u64 = 0x2c;

/// The field searched for and the field converted are the ones after the
/// eighth comma.
pub const FIELD: u64 = 8;

/// Messages of at most this many bytes always admit a query: every position
/// in them keeps the lanes below `2^31`.
pub const SMALL_MESSAGE: usize = 0x3FFF_FFFB;

/// A sequence of `n` zeros.
pub open spec fn zeros(n: int) -> Seq<u32> {
    Seq::new(n as nat, |i: int| 0u32)
}

/// Line starts of a query over `lines` lines.
pub open spec fn query_lines(msg: Seq<u8>, lines: int) -> Seq<u32> {
    scanned_indices(msg, zeros(lines / 64 * 64), 0, NEWLINE)
}

/// Positions of the searched field in each line.
pub open spec fn query_fields(msg: Seq<u8>, lines: int) -> Seq<u32> {
    separated_indices(msg, query_lines(msg, lines), zeros(lines / 64 * 64), FIELD, COMMA)
}

/// The rows whose field begins with `HOND`, as field positions.
pub open spec fn query_active(msg: Seq<u8>, lines: int) -> Seq<u32> {
    let found = matched(msg, query_fields(msg, lines), HONDA, ACTIVE_LEN as int);
    Seq::new(ACTIVE_LEN as nat, |k: int| if k < found.len() { found[k] } else { 0u32 })
}

/// Whether both field searches of a query keep their signed 32-bit lane
/// positions below `2^31`.
pub open spec fn query_admits(msg: Seq<u8>, lines: int) -> bool {
    &&& lanes_fit(query_lines(msg, lines))
    &&& lanes_fit(query_active(msg, lines))
}

/// Positions of the field to convert, starting from the matching rows.
pub open spec fn query_values(msg: Seq<u8>, lines: int) -> Seq<u32> {
    separated_indices(msg, query_active(msg, lines), zeros(lines / 64 * 64), FIELD, COMMA)
}

/// Every message of at most `SMALL_MESSAGE` bytes admits a query over any
/// number of lines from 2048 on: the line starts and the matching rows are
/// positions within the message, so both field searches fit their lanes.
pub proof fn lemma_small_messages_admit(msg: Seq<u8>, lines: int)
    requires
        msg.len() <= SMALL_MESSAGE,
        lines >= ACTIVE_LEN,
    ensures
        query_admits(msg, lines),
{
    let n = lines / 64 * 64;
    assert(n >= 2048 && n % 64 == 0) by (nonlinear_arith)
        requires
            lines >= 2048,
            n == lines / 64 * 64,
    ;
    let starts = query_lines(msg, lines);
    assert forall|k: int| 0 <= k < starts.len() implies #[trigger] starts[k] <= msg.len() by {
        crate::scan::lemma_scanned_indices_bound(msg, zeros(n), 0, NEWLINE, k);
    }
    lemma_small_starts_fit(starts, msg.len() as int);
    let fields = query_fields(msg, lines);
    lemma_reported_rows_match(msg, fields, HONDA, ACTIVE_LEN as int);
    let found = matched(msg, fields, HONDA, ACTIVE_LEN as int);
    let active = query_active(msg, lines);
    assert forall|k: int| 0 <= k < active.len() implies #[trigger] active[k] <= msg.len() by {
        if k < found.len() {
            assert(pattern_at(msg, found[k] as int, HONDA));
        }
    }
    lemma_small_starts_fit(active, msg.len() as int);
}

/// A buffer of `n` zeros.
fn zeros_u32(n: usize) -> (v: Vec<u32>)
    ensures
        v@ == zeros(n as int),
{
    let mut v: Vec<u32> = Vec::new();
    let mut i: usize = 0;
    while i < n
        invariant
            i <= n,
            v@ == zeros(i as int),
        decreases n - i,
    {
        v.push(0);
        i = i + 1;
        assert(v@ =~= zeros(i as int));
    }
    v
}

/// Runs the sample query when both field searches fit their lanes, and
/// says `None` otherwise: find the line starts, locate the field after the
/// eighth comma, keep the rows where that field begins with `HOND`, locate
/// the field after the next eight commas of those rows, and convert the
/// first eight of those fields to integers.
pub fn try_query(message: &[u8], lines: usize) -> (res: Option<Vec<i64>>)
    requires
        message.len() < 0x8000_0000,
        lines >= ACTIVE_LEN,
    ensures
        res is Some <==> query_admits(message@, lines as int),
        message.len() <= SMALL_MESSAGE ==> res is Some,
        res matches Some(v) ==> {
            &&& v.len() == 8
            &&& forall|i: int|
                0 <= i < 8 ==> #[trigger] v@[i] == converted(
                    message@,
                    query_values(message@, lines as int)[i] as int,
                )
        },
{
    proof {
        if message.len() <= SMALL_MESSAGE {
            lemma_small_messages_admit(message@, lines as int);
        }
    }
    let size: usize = lines / 64;
    let mut indices_vec = zeros_u32(size * 64);
    proof {
        crate::scan::lemma_scan_fits_small(message@, (size * 64) as int, 0, NEWLINE);
    }
    let _end = scan_delimiter(message, &mut indices_vec, 0, NEWLINE);
    assert(indices_vec@ == query_lines(message@, lines as int));
    if !lanes_fit_exec(indices_vec.as_slice()) {
        return None;
    }
    let mut make_indices_vec = zeros_u32(indices_vec.len());
    detect_separator(message, indices_vec.as_slice(), &mut make_indices_vec, FIELD, COMMA);
    let mut active_vec = zeros_u32(ACTIVE_LEN);
    let _count = eval_string_equal(message, make_indices_vec.as_slice(), HONDA, &mut active_vec);
    assert(active_vec@ =~= query_active(message@, lines as int));
    if !lanes_fit_exec(active_vec.as_slice()) {
        return None;
    }
    let fine_size: usize = make_indices_vec.len() / 64;
    let mut fine_indices_vec = zeros_u32(fine_size * 64);
    detect_separator(message, active_vec.as_slice(), &mut fine_indices_vec, FIELD, COMMA);
    let mut fine_indices_vec64: Vec<u64> = Vec::new();
    let mut i: usize = 0;
    while i < fine_indices_vec.len()
        invariant
            i <= fine_indices_vec.len(),
            fine_indices_vec64.len() == i,
            forall|j: int| 0 <= j < i ==> #[trigger] fine_indices_vec64@[j] == fine_indices_vec@[j] as u64,
        decreases fine_indices_vec.len() - i,
    {
        fine_indices_vec64.push(fine_indices_vec[i] as u64);
        i = i + 1;
    }
    let mut i64s_vec: Vec<i64> = Vec::new();
    let mut i: usize = 0;
    while i < 8
        invariant
            i <= 8,
            i64s_vec.len() == i,
        decreases 8 - i,
    {
        i64s_vec.push(0);
        i = i + 1;
    }
    conv_atoi64(message, fine_indices_vec64.as_slice(), &mut i64s_vec);
    Some(i64s_vec)
}

/// Runs the sample query over a CSV message of at least `lines` lines whose
/// two field searches fit their lanes (`query_admits`).
pub fn query(message: &[u8], lines: usize) -> (res: Vec<i64>)
    requires
        message.len() < 0x8000_0000,
        lines >= ACTIVE_LEN,
        query_admits(message@, lines as int),
    ensures
        res.len() == 8,
        forall|i: int|
            0 <= i < 8 ==> #[trigger] res@[i] == converted(message@, query_values(message@, lines as int)[i] as int),
{
    match try_query(message, lines) {
        Some(v) => v,
        None => {
            proof {
                assert(false);
            }
            Vec::new()
        },
    }
}

} // verus!
