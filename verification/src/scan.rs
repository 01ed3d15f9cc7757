use vstd::prelude::*;

verus! {

/// Number of line starts gathered per output block.
pub const BLOCK: usize = 16;

/// The byte compared against: the low byte of the delimiter argument.
pub open spec fn delim_byte(delimiter: u64) -> u8 {
    (delimiter % 256) as u8
}

/// Whether position `p` is examined by a scan that begins at `start`:
/// every byte from the start on.
pub open spec fn examined(start: int, p: int) -> bool {
    p >= start
}

/// Whether position `p` holds an examined delimiter.
pub open spec fn is_delim(msg: Seq<u8>, start: int, c: u8, p: int) -> bool {
    &&& 0 <= p < msg.len()
    &&& examined(start, p)
    &&& msg[p] == c
}

/// The examined delimiter positions below `hi`, in increasing order.
pub open spec fn delims_below(msg: Seq<u8>, start: int, c: u8, hi: int) -> Seq<int>
    decreases hi,
{
    if hi <= 0 {
        Seq::empty()
    } else if is_delim(msg, start, c, hi - 1) {
        delims_below(msg, start, c, hi - 1).push(hi - 1)
    } else {
        delims_below(msg, start, c, hi - 1)
    }
}

/// The line starts found by a scan from `start`: the start itself, then the
/// position just after each examined delimiter.
pub open spec fn line_starts(msg: Seq<u8>, start: int, c: u8) -> Seq<int> {
    let d = delims_below(msg, start, c, msg.len() as int);
    Seq::new(d.len() + 1, |i: int| if i == 0 { start } else { d[i - 1] + 1 })
}

/// Whether the scan stops after writing block `b`: the block did not find
/// all its delimiters, the chunk after its last delimiter reaches into the
/// final 64 bytes of the message, or the output has no room for another block.
pub open spec fn stops_after(starts: Seq<int>, len: int, n_out: int, b: int) -> bool {
    ||| starts.len() < 16 * b + 17
    ||| ({
        let d = starts[16 * b + 16] - 1;
        d - d % 64 + 128 >= len
    })
    ||| 16 * (b + 1) >= n_out
}

/// Number of blocks written, counting from block `b` on.
pub open spec fn blocks_from(starts: Seq<int>, len: int, n_out: int, b: int) -> int
    decreases n_out - 16 * b,
{
    if b < 0 || stops_after(starts, len, n_out, b) {
        b + 1
    } else {
        blocks_from(starts, len, n_out, b + 1)
    }
}

/// Number of 16-entry blocks that a scan writes.
pub open spec fn num_blocks(msg: Seq<u8>, n_out: int, start: int, c: u8) -> int {
    blocks_from(line_starts(msg, start, c), msg.len() as int, n_out, 0)
}

/// The `i`-th entry written: the `i`-th line start, or the last line start
/// found once they run out.
pub open spec fn start_at(starts: Seq<int>, i: int) -> int {
    if i < starts.len() {
        starts[i]
    } else {
        starts[starts.len() - 1]
    }
}

/// The index buffer after a scan: the written blocks hold line starts, the
/// rest of the buffer is unchanged.
pub open spec fn scanned_indices(msg: Seq<u8>, old: Seq<u32>, start: int, delimiter: u64) -> Seq<u32> {
    let starts = line_starts(msg, start, delim_byte(delimiter));
    let nb = num_blocks(msg, old.len() as int, start, delim_byte(delimiter));
    Seq::new(
        old.len(),
        |i: int| if i < 16 * nb { start_at(starts, i) as u32 } else { old[i] },
    )
}

/// The position returned by a scan: the line start that follows the last
/// block written.
pub open spec fn scan_end(msg: Seq<u8>, n_out: int, start: int, delimiter: u64) -> int {
    let starts = line_starts(msg, start, delim_byte(delimiter));
    start_at(starts, 16 * num_blocks(msg, n_out, start, delim_byte(delimiter)))
}

/// Whether every line start that a scan writes fits in a 32-bit entry.
pub open spec fn scan_fits(msg: Seq<u8>, n_out: int, start: int, delimiter: u64) -> bool {
    let starts = line_starts(msg, start, delim_byte(delimiter));
    let nb = num_blocks(msg, n_out, start, delim_byte(delimiter));
    forall|i: int| 0 <= i < 16 * nb ==> #[trigger] start_at(starts, i) <= u32::MAX
}

/// A scan writes at least the block it starts with.
pub proof fn lemma_blocks_from_ge(starts: Seq<int>, len: int, n_out: int, b: int)
    requires
        0 <= b,
    ensures
        blocks_from(starts, len, n_out, b) >= b + 1,
    decreases n_out - 16 * b,
{
    if !stops_after(starts, len, n_out, b) {
        lemma_blocks_from_ge(starts, len, n_out, b + 1);
    }
}

/// Every position in `delims_below(hi)` is an examined delimiter below `hi`.
pub proof fn lemma_delims_below_members(msg: Seq<u8>, start: int, c: u8, hi: int)
    ensures
        forall|i: int|
            0 <= i < delims_below(msg, start, c, hi).len() ==> {
                let p = #[trigger] delims_below(msg, start, c, hi)[i];
                &&& p < hi
                &&& is_delim(msg, start, c, p)
            },
    decreases hi,
{
    if hi > 0 {
        lemma_delims_below_members(msg, start, c, hi - 1);
        let prev = delims_below(msg, start, c, hi - 1);
        let cur = delims_below(msg, start, c, hi);
        assert forall|i: int| 0 <= i < cur.len() implies {
            let p = #[trigger] cur[i];
            &&& p < hi
            &&& is_delim(msg, start, c, p)
        } by {
            if i < prev.len() {
                assert(cur[i] == prev[i]);
            }
        }
    }
}

/// Raising the bound only appends positions at or above the old bound.
pub proof fn lemma_delims_prefix(msg: Seq<u8>, start: int, c: u8, lo: int, hi: int)
    requires
        lo <= hi,
    ensures
        delims_below(msg, start, c, lo).len() <= delims_below(msg, start, c, hi).len(),
        forall|i: int|
            0 <= i < delims_below(msg, start, c, lo).len() ==> #[trigger] delims_below(
                msg,
                start,
                c,
                hi,
            )[i] == delims_below(msg, start, c, lo)[i],
        forall|i: int|
            delims_below(msg, start, c, lo).len() <= i < delims_below(msg, start, c, hi).len()
                ==> #[trigger] delims_below(msg, start, c, hi)[i] >= lo,
    decreases hi - lo,
{
    if lo < hi {
        lemma_delims_prefix(msg, start, c, lo, hi - 1);
    }
}

/// With no examined delimiter in `[lo, hi)` the list below `hi` equals the
/// one below `lo`.
pub proof fn lemma_delims_gap(msg: Seq<u8>, start: int, c: u8, lo: int, hi: int)
    requires
        0 <= lo <= hi,
        forall|k: int| lo <= k < hi ==> !is_delim(msg, start, c, k),
    ensures
        delims_below(msg, start, c, hi) == delims_below(msg, start, c, lo),
    decreases hi - lo,
{
    if lo < hi {
        lemma_delims_gap(msg, start, c, lo, hi - 1);
    }
}

/// Every line start lies between `start` and the message length.
pub proof fn lemma_line_starts_bound(msg: Seq<u8>, start: int, c: u8)
    requires
        0 <= start <= msg.len(),
    ensures
        forall|i: int|
            0 <= i < line_starts(msg, start, c).len() ==> start <= #[trigger] line_starts(msg, start, c)[i]
                <= msg.len(),
{
    lemma_delims_below_members(msg, start, c, msg.len() as int);
    let d = delims_below(msg, start, c, msg.len() as int);
    assert forall|i: int| 0 <= i < line_starts(msg, start, c).len() implies start <= #[trigger] line_starts(
        msg,
        start,
        c,
    )[i] <= msg.len() by {
        if i > 0 {
            assert(is_delim(msg, start, c, d[i - 1]));
        }
    }
}

/// Entries written by a scan are positions within the message; the rest of
/// the buffer keeps its contents.
pub proof fn lemma_scanned_indices_bound(msg: Seq<u8>, old: Seq<u32>, start: int, delimiter: u64, i: int)
    requires
        0 <= start <= msg.len(),
        msg.len() <= u32::MAX,
        0 <= i < old.len(),
        old[i] <= msg.len(),
    ensures
        scanned_indices(msg, old, start, delimiter)[i] <= msg.len(),
{
    let c = delim_byte(delimiter);
    lemma_line_starts_bound(msg, start, c);
    let starts = line_starts(msg, start, c);
    let v = start_at(starts, i);
    assert(start <= v <= msg.len());
}

/// The delimiters below `hi` are listed in strictly increasing order, and
/// every examined delimiter below `hi` is listed.
pub proof fn lemma_delims_sorted_complete(msg: Seq<u8>, start: int, c: u8, hi: int)
    ensures
        forall|i: int, j: int|
            0 <= i < j < delims_below(msg, start, c, hi).len() ==> delims_below(msg, start, c, hi)[i]
                < delims_below(msg, start, c, hi)[j],
        forall|p: int|
            p < hi && #[trigger] is_delim(msg, start, c, p) ==> delims_below(msg, start, c, hi).contains(p),
    decreases hi,
{
    if hi > 0 {
        lemma_delims_sorted_complete(msg, start, c, hi - 1);
        lemma_delims_below_members(msg, start, c, hi - 1);
        let prev = delims_below(msg, start, c, hi - 1);
        let cur = delims_below(msg, start, c, hi);
        assert forall|p: int| p < hi && #[trigger] is_delim(msg, start, c, p) implies cur.contains(p) by {
            if p < hi - 1 {
                let k = choose|k: int| 0 <= k < prev.len() && prev[k] == p;
                assert(cur[k] == p);
            } else {
                assert(cur[cur.len() - 1] == p);
            }
        }
        assert forall|i: int, j: int| 0 <= i < j < cur.len() implies cur[i] < cur[j] by {
            if j < prev.len() {
                assert(cur[i] == prev[i] && cur[j] == prev[j]);
            } else {
                assert(cur[i] == prev[i]);
                assert(prev[i] < hi - 1);
            }
        }
    }
}

/// The line starts that a scan reports are exactly the lines of the
/// examined bytes: the first is the start, each later one follows a
/// delimiter, they increase strictly, and no examined delimiter lies inside
/// a line or after the last line start.
pub proof fn lemma_line_starts_are_lines(msg: Seq<u8>, start: int, c: u8)
    requires
        0 <= start <= msg.len(),
    ensures
        line_starts(msg, start, c)[0] == start,
        forall|i: int|
            1 <= i < line_starts(msg, start, c).len() ==> is_delim(
                msg,
                start,
                c,
                #[trigger] line_starts(msg, start, c)[i] - 1,
            ),
        forall|i: int, j: int|
            0 <= i < j < line_starts(msg, start, c).len() ==> line_starts(msg, start, c)[i]
                < line_starts(msg, start, c)[j],
        forall|i: int, p: int|
            0 <= i < line_starts(msg, start, c).len() - 1 && #[trigger] line_starts(msg, start, c)[i] <= p
                < line_starts(msg, start, c)[i + 1] - 1 ==> !#[trigger] is_delim(msg, start, c, p),
        forall|p: int|
            line_starts(msg, start, c)[line_starts(msg, start, c).len() - 1] <= p ==> !#[trigger] is_delim(
                msg,
                start,
                c,
                p,
            ),
{
    let n = msg.len() as int;
    let d = delims_below(msg, start, c, n);
    let l = line_starts(msg, start, c);
    lemma_delims_below_members(msg, start, c, n);
    lemma_delims_sorted_complete(msg, start, c, n);
    assert forall|i: int| 1 <= i < l.len() implies is_delim(msg, start, c, #[trigger] l[i] - 1) by {
        assert(l[i] - 1 == d[i - 1]);
    }
    assert forall|i: int, j: int| 0 <= i < j < l.len() implies l[i] < l[j] by {
        assert(is_delim(msg, start, c, d[j - 1]));
        if i > 0 {
            assert(d[i - 1] < d[j - 1]);
        }
    }
    assert forall|i: int, p: int|
        0 <= i < l.len() - 1 && #[trigger] l[i] <= p < l[i + 1] - 1 implies !#[trigger] is_delim(msg, start, c, p) by {
        if is_delim(msg, start, c, p) {
            let k = choose|k: int| 0 <= k < d.len() && d[k] == p;
            assert(l[i + 1] - 1 == d[i]);
            if k > i {
                assert(d[i] < d[k]);
            } else if k < i {
                assert(d[k] < d[i - 1] || k == i - 1);
                assert(l[i] == d[i - 1] + 1);
                if k < i - 1 {
                    assert(d[k] < d[i - 1]);
                }
            }
        }
    }
    assert forall|p: int| l[l.len() - 1] <= p implies !#[trigger] is_delim(msg, start, c, p) by {
        if is_delim(msg, start, c, p) {
            let k = choose|k: int| 0 <= k < d.len() && d[k] == p;
            if d.len() > 0 {
                assert(l[l.len() - 1] == d[d.len() - 1] + 1);
                if k < d.len() - 1 {
                    assert(d[k] < d[d.len() - 1]);
                }
            }
        }
    }
}

/// On messages shorter than 4 GiB every written line start fits.
pub proof fn lemma_scan_fits_small(msg: Seq<u8>, n_out: int, start: int, delimiter: u64)
    requires
        0 <= start <= msg.len(),
        msg.len() <= u32::MAX,
    ensures
        scan_fits(msg, n_out, start, delimiter),
{
    let c = delim_byte(delimiter);
    lemma_line_starts_bound(msg, start, c);
    let starts = line_starts(msg, start, c);
    assert forall|i: int| 0 <= i < 16 * num_blocks(msg, n_out, start, c) implies #[trigger] start_at(starts, i)
        <= u32::MAX by {
        if i >= starts.len() {
            assert(starts[starts.len() - 1] <= msg.len());
        }
    }
}

/// The line starts of a scan, in terms of the message bytes: the first is
/// the start; every later one is just after a byte at or past the start
/// that equals the low byte of the delimiter; every such byte is followed by
/// a line start; and the starts increase strictly.
pub proof fn lemma_line_starts_follow_delimiters(msg: Seq<u8>, start: int, delimiter: u64)
    requires
        0 <= start <= msg.len(),
    ensures
        ({
            let l = line_starts(msg, start, delim_byte(delimiter));
            &&& l[0] == start
            &&& forall|i: int|
                1 <= i < l.len() ==> start <= #[trigger] l[i] - 1 < msg.len() && msg[l[i] - 1] == (delimiter
                    % 256) as u8
            &&& forall|p: int|
                start <= p < msg.len() && #[trigger] msg[p] == (delimiter % 256) as u8 ==> exists|i: int|
                    1 <= i < l.len() && #[trigger] l[i] == p + 1
            &&& forall|i: int, j: int| 0 <= i < j < l.len() ==> l[i] < l[j]
        }),
{
    let c = delim_byte(delimiter);
    let len = msg.len() as int;
    let l = line_starts(msg, start, c);
    let d = delims_below(msg, start, c, len);
    lemma_line_starts_are_lines(msg, start, c);
    lemma_delims_sorted_complete(msg, start, c, len);
    assert forall|p: int| start <= p < msg.len() && #[trigger] msg[p] == (delimiter % 256) as u8 implies exists|
        i: int,
    | 1 <= i < l.len() && #[trigger] l[i] == p + 1 by {
        assert(is_delim(msg, start, c, p));
        let k = choose|k: int| 0 <= k < d.len() && d[k] == p;
        assert(l[k + 1] == p + 1);
    }
}

/// A scan that begins later sees the same delimiters, less those before its
/// start.
proof fn lemma_delims_from_later_start(msg: Seq<u8>, s: int, s2: int, c: u8, hi: int)
    requires
        0 <= s <= s2 <= hi,
    ensures
        delims_below(msg, s, c, s2).len() <= delims_below(msg, s, c, hi).len(),
        delims_below(msg, s2, c, hi) == delims_below(msg, s, c, hi).skip(
            delims_below(msg, s, c, s2).len() as int,
        ),
    decreases hi - s2,
{
    lemma_delims_prefix(msg, s, c, s2, hi);
    if hi == s2 {
        lemma_delims_gap(msg, s2, c, 0, s2);
        assert(delims_below(msg, s2, c, 0) =~= Seq::<int>::empty());
        assert(delims_below(msg, s, c, hi).skip(delims_below(msg, s, c, s2).len() as int) =~= Seq::<
            int,
        >::empty());
    } else {
        lemma_delims_from_later_start(msg, s, s2, c, hi - 1);
        let k = delims_below(msg, s, c, s2).len() as int;
        let prev = delims_below(msg, s, c, hi - 1);
        if is_delim(msg, s, c, hi - 1) {
            assert(prev.push(hi - 1).skip(k) =~= prev.skip(k).push(hi - 1));
        }
    }
}

/// Block counts when no block stops early: with enough line starts, all
/// far enough from the end, every block of the buffer is written.
proof fn lemma_blocks_all_written(starts: Seq<int>, len: int, n: int, b: int)
    requires
        n % 16 == 0,
        0 <= b < n / 16,
        starts.len() > n,
        forall|i: int| 0 <= i < n ==> #[trigger] starts[i] + 128 <= len,
    ensures
        blocks_from(starts, len, n, b) == n / 16,
    decreases n - 16 * b,
{
    if 16 * (b + 1) < n {
        let d = starts[16 * b + 16] - 1;
        assert(d - d % 64 + 128 < len);
        assert(!stops_after(starts, len, n, b));
        lemma_blocks_all_written(starts, len, n, b + 1);
    } else {
        assert(b + 1 == n / 16);
    }
}

/// The line starts seen from the `n1`-th line start on are the remaining
/// line starts.
proof fn lemma_resume_starts(msg: Seq<u8>, start: int, c: u8, n1: int)
    requires
        0 <= start <= msg.len(),
        1 <= n1 < line_starts(msg, start, c).len(),
    ensures
        line_starts(msg, line_starts(msg, start, c)[n1], c) == line_starts(msg, start, c).skip(n1),
{
    let len = msg.len() as int;
    let l = line_starts(msg, start, c);
    let d = delims_below(msg, start, c, len);
    let r1 = l[n1];
    lemma_delims_below_members(msg, start, c, len);
    lemma_delims_sorted_complete(msg, start, c, len);
    assert(r1 == d[n1 - 1] + 1);
    assert(is_delim(msg, start, c, d[n1 - 1]));
    lemma_delims_prefix(msg, start, c, r1, len);
    lemma_delims_below_members(msg, start, c, r1);
    let k = delims_below(msg, start, c, r1).len() as int;
    if k < n1 {
        assert(d[n1 - 1] >= r1);
    }
    if k > n1 {
        assert(delims_below(msg, start, c, r1)[n1] == d[n1]);
        assert(d[n1 - 1] < d[n1]);
    }
    assert(k == n1);
    lemma_delims_from_later_start(msg, start, r1, c, len);
    assert(line_starts(msg, r1, c) =~= l.skip(n1));
}

/// When the first `n` line starts lie at least 128 bytes before the end and
/// one more exists, a scan into `n` entries writes exactly them and returns
/// the next.
proof fn lemma_scan_full(msg: Seq<u8>, start: int, delimiter: u64, old: Seq<u32>)
    requires
        0 <= start <= msg.len(),
        old.len() >= 16,
        old.len() % 16 == 0,
        line_starts(msg, start, delim_byte(delimiter)).len() > old.len(),
        forall|i: int|
            0 <= i < old.len() ==> #[trigger] line_starts(msg, start, delim_byte(delimiter))[i] + 128
                <= msg.len(),
    ensures
        forall|i: int|
            0 <= i < old.len() ==> #[trigger] scanned_indices(msg, old, start, delimiter)[i]
                == line_starts(msg, start, delim_byte(delimiter))[i] as u32,
        scanned_indices(msg, old, start, delimiter).len() == old.len(),
        scan_end(msg, old.len() as int, start, delimiter) == line_starts(
            msg,
            start,
            delim_byte(delimiter),
        )[old.len() as int],
{
    let c = delim_byte(delimiter);
    let n = old.len() as int;
    let l = line_starts(msg, start, c);
    lemma_blocks_all_written(l, msg.len() as int, n, 0);
    assert(16 * (n / 16) == n) by (nonlinear_arith)
        requires
            n % 16 == 0,
    ;
}

proof fn lemma_concat_starts(s1: Seq<u32>, s2: Seq<u32>, s: Seq<u32>, l: Seq<int>, n1: int)
    requires
        0 <= n1,
        s1.len() == n1,
        s.len() == n1 + s2.len(),
        l.len() > s.len(),
        forall|i: int| 0 <= i < s1.len() ==> #[trigger] s1[i] == l[i] as u32,
        forall|i: int| 0 <= i < s2.len() ==> #[trigger] s2[i] == l[n1 + i] as u32,
        forall|i: int| 0 <= i < s.len() ==> #[trigger] s[i] == l[i] as u32,
    ensures
        s1 + s2 == s,
{
    assert forall|i: int| 0 <= i < s.len() implies #[trigger] (s1 + s2)[i] == s[i] by {
        if i >= n1 {
            assert(s2[i - n1] == l[n1 + (i - n1)] as u32);
        }
    }
    assert(s1 + s2 =~= s);
}

/// Resuming a scan at the position it returned continues the same line
/// starts: two scans of `n1` and `n2` entries, the second started where the
/// first ended, write what one scan of `n1 + n2` entries writes and return
/// the same position, provided the `n1 + n2` delimiters exist and the last
/// of them lies at least 128 bytes before the end of the message.
pub proof fn lemma_scan_resumes(msg: Seq<u8>, start: int, delimiter: u64, old1: Seq<u32>, old2: Seq<u32>, old: Seq<u32>)
    requires
        0 <= start <= msg.len(),
        old1.len() >= 16,
        old1.len() % 16 == 0,
        old2.len() >= 16,
        old2.len() % 16 == 0,
        old.len() == old1.len() + old2.len(),
        line_starts(msg, start, delim_byte(delimiter)).len() > old.len(),
        line_starts(msg, start, delim_byte(delimiter))[old.len() as int] + 127 <= msg.len(),
    ensures
        ({
            let r1 = scan_end(msg, old1.len() as int, start, delimiter);
            &&& scanned_indices(msg, old1, start, delimiter) + scanned_indices(msg, old2, r1, delimiter)
                == scanned_indices(msg, old, start, delimiter)
            &&& scan_end(msg, old2.len() as int, r1, delimiter) == scan_end(
                msg,
                old.len() as int,
                start,
                delimiter,
            )
        }),
{
    let c = delim_byte(delimiter);
    let len = msg.len() as int;
    let n1 = old1.len() as int;
    let n2 = old2.len() as int;
    let n = old.len() as int;
    let l = line_starts(msg, start, c);
    assert forall|i: int| 0 <= i < n implies #[trigger] l[i] + 128 <= len by {
        lemma_line_starts_are_lines(msg, start, c);
        assert(l[i] < l[n]);
    }
    lemma_scan_full(msg, start, delimiter, old);
    lemma_scan_full(msg, start, delimiter, old1);
    let r1 = scan_end(msg, n1, start, delimiter);
    assert(r1 == l[n1] && l[n1] + 128 <= len);
    lemma_line_starts_bound(msg, start, c);
    lemma_resume_starts(msg, start, c, n1);
    let l2 = line_starts(msg, r1, c);
    assert forall|i: int| 0 <= i < n2 implies #[trigger] l2[i] + 128 <= len by {
        assert(l2[i] == l[n1 + i]);
    }
    lemma_scan_full(msg, r1, delimiter, old2);
    let s1 = scanned_indices(msg, old1, start, delimiter);
    let s2 = scanned_indices(msg, old2, r1, delimiter);
    let s = scanned_indices(msg, old, start, delimiter);
    assert forall|i: int| 0 <= i < n2 implies #[trigger] s2[i] == l[n1 + i] as u32 by {
        assert(l2[i] == l[n1 + i]);
    }
    lemma_concat_starts(s1, s2, s, l, n1);
    assert(l2[n2] == l[n]);
}

/// The least examined delimiter at or after `from`, or the message length.
fn next_delim(message: &[u8], start: usize, c: u8, from: usize) -> (q: usize)
    requires
        start <= from <= message.len(),
    ensures
        from <= q <= message.len(),
        forall|k: int| from <= k < q ==> !is_delim(message@, start as int, c, k),
        q < message.len() ==> is_delim(message@, start as int, c, q as int),
{
    let mut q = from;
    while q < message.len() && message[q] != c
        invariant
            start <= from <= q <= message.len(),
            forall|k: int| from <= k < q ==> !is_delim(message@, start as int, c, k),
        decreases message.len() - q,
    {
        q = q + 1;
    }
    q
}

/// Scans `message` from `start_pos` for the low byte of `delimiter`,
/// examining every byte from `start_pos` on, and writes line starts into
/// `indices` as 32-bit entries, 16 per block: each block begins with
/// the line start it was entered with, followed by the positions just after
/// the next 15 delimiters; the 16th delimiter gives the start of the next
/// block. Scanning proceeds in 64-byte chunks; it stops after a block when
/// the chunk following its last delimiter begins within the final 64 bytes
/// of the message, when the buffer is full, or when the delimiters run out,
/// in which case the block is padded
/// with the last line start found. Returns the line start that follows the
/// last block written, as a full 64-bit position, so that a scan can resume
/// there. Every line start written must fit in 32 bits.
pub fn scan_delimiter(message: &[u8], indices: &mut Vec<u32>, start_pos: u64, delimiter: u64) -> (end_pos: u64)
    requires
        start_pos <= message.len(),
        old(indices).len() >= BLOCK,
        old(indices).len() % BLOCK == 0,
        scan_fits(message@, old(indices).len() as int, start_pos as int, delimiter),
    ensures
        final(indices)@ == scanned_indices(message@, old(indices)@, start_pos as int, delimiter),
        end_pos == scan_end(message@, old(indices).len() as int, start_pos as int, delimiter),
{
    let ghost msg = message@;
    let ghost old_ind = indices@;
    let n = indices.len();
    let c: u8 = (delimiter % 256) as u8;
    let len = message.len();
    let start = start_pos as usize;
    let ghost starts = line_starts(msg, start as int, c);
    let ghost all = delims_below(msg, start as int, c, len as int);
    proof {
        lemma_delims_below_members(msg, start as int, c, len as int);
        lemma_delims_gap(msg, start as int, c, 0, start as int);
        assert(delims_below(msg, start as int, c, 0) =~= Seq::<int>::empty());
        lemma_blocks_from_ge(starts, len as int, n as int, 0);
    }
    let mut p: usize = start;
    let mut last: usize = start;
    let mut b: usize = 0;
    loop
        invariant
            len == message.len(),
            msg == message@,
            scan_fits(msg, n as int, start_pos as int, delimiter),
            num_blocks(msg, n as int, start as int, c) >= b + 1,
            n == indices.len(),
            n == old_ind.len(),
            old_ind == old(indices)@,
            n >= 16,
            n % 16 == 0,
            c == delim_byte(delimiter),
            start as int == start_pos,
            start <= len,
            starts == line_starts(msg, start as int, c),
            all == delims_below(msg, start as int, c, len as int),
            forall|i: int| 0 <= i < all.len() ==> #[trigger] all[i] < len,
            16 * b < n,
            start <= p <= len,
            delims_below(msg, start as int, c, p as int).len() == 16 * b,
            16 * b < starts.len(),
            last as int == starts[16 * b],
            blocks_from(starts, len as int, n as int, 0) == blocks_from(starts, len as int, n as int, b as int),
            forall|i: int|
                0 <= i < n ==> #[trigger] indices@[i] == if i < 16 * b {
                    start_at(starts, i) as u32
                } else {
                    old_ind[i]
                },
        decreases n - 16 * b,
    {
        let base = 16 * b;
        proof {
            lemma_delims_prefix(msg, start as int, c, p as int, len as int);
            assert(start_at(starts, 16 * b) <= u32::MAX);
        }
        indices.set(base, last as u32);
        let mut j: usize = 1;
        let mut found = true;
        while j <= 16
            invariant
                len == message.len(),
                msg == message@,
                scan_fits(msg, n as int, start_pos as int, delimiter),
                num_blocks(msg, n as int, start as int, c) >= b + 1,
                start as int == start_pos,
                n == indices.len(),
                n == old_ind.len(),
                old_ind == old(indices)@,
                n % 16 == 0,
                c == delim_byte(delimiter),
                start <= len,
                    starts == line_starts(msg, start as int, c),
                all == delims_below(msg, start as int, c, len as int),
                forall|i: int| 0 <= i < all.len() ==> #[trigger] all[i] < len,
                base == 16 * b,
                16 * b < n,
                1 <= j <= 17,
                start <= p <= len,
                found ==> delims_below(msg, start as int, c, p as int).len() == 16 * b + j - 1,
                found ==> 16 * b + j - 1 < starts.len(),
                found ==> last as int == starts[16 * b + j - 1],
                !found ==> p == len,
                !found ==> starts.len() <= 16 * b + j - 1,
                !found ==> last as int == starts[starts.len() - 1],
                forall|i: int|
                    0 <= i < n ==> #[trigger] indices@[i] == if i < 16 * b + j && i < 16 * b + 16 {
                        start_at(starts, i) as u32
                    } else {
                        old_ind[i]
                    },
            decreases 17 - j,
        {
            let q = next_delim(message, start, c, p);
            proof {
                lemma_delims_gap(msg, start as int, c, p as int, q as int);
            }
            if q < len {
                proof {
                    assert(delims_below(msg, start as int, c, q + 1) == delims_below(msg, start as int, c, q as int).push(q as int));
                    lemma_delims_prefix(msg, start as int, c, q + 1, len as int);
                    let k = 16 * b + j - 1;
                    assert(found);
                    assert(delims_below(msg, start as int, c, q + 1)[k] == q as int);
                    assert(all[k] == q);
                }
                last = q + 1;
                p = q + 1;
            } else {
                proof {
                    if found {
                        assert(all.len() == 16 * b + j - 1);
                    }
                }
                p = len;
                found = false;
            }
            if j < 16 {
                proof {
                    assert(start_at(starts, 16 * b + j) <= u32::MAX);
                }
                indices.set(base + j, last as u32);
            }
            j = j + 1;
        }
        if !found {
            proof {
                assert(stops_after(starts, len as int, n as int, b as int));
                assert(blocks_from(starts, len as int, n as int, b as int) == b + 1);
                assert(indices@ =~= scanned_indices(msg, old_ind, start_pos as int, delimiter));
            }
            return last as u64;
        }
        let d: usize = last - 1;
        let chunk_start: usize = d - d % 64;
        if len < 128 || chunk_start >= len - 128 || base + 16 >= n {
            proof {
                assert(stops_after(starts, len as int, n as int, b as int));
                assert(blocks_from(starts, len as int, n as int, b as int) == b + 1);
                assert(indices@ =~= scanned_indices(msg, old_ind, start_pos as int, delimiter));
            }
            return last as u64;
        }
        b = b + 1;
        proof {
            lemma_blocks_from_ge(starts, len as int, n as int, b as int);
        }
    }
}

} // verus!
