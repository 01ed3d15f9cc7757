use vstd::prelude::*;

verus! {

/// Upper bound on the rounds of one block: a round follows another only
/// while some line end lies ahead, and line ends are below `2^32`.
pub open spec fn round_fuel() -> nat {
    0x4000_0000nat
}

/// Lane positions are signed 32-bit values. In block `b` a lane moves at
/// most four bytes past the longest line of the block, so every position a
/// lane reaches stays below `2^31` when each start plus the length of any
/// line of its block (plus the bytes of one round) stays below `2^31`.
pub open spec fn block_fits(ind: Seq<u32>, b: int) -> bool {
    &&& forall|i: int| 0 <= i < 16 ==> #[trigger] ind[16 * b + i] + 8 < 0x8000_0000
    &&& forall|i: int, j: int|
        0 <= i < 16 && 0 <= j < 16 ==> #[trigger] ind[16 * b + i] + ind[16 * b + j + 1] - #[trigger] ind[16
            * b + j] + 8 < 0x8000_0000
}

/// Every processed block keeps its lane positions below `2^31`.
pub open spec fn lanes_fit(ind: Seq<u32>) -> bool {
    forall|b: int| 0 <= b < separated_blocks(ind.len() as int) ==> #[trigger] block_fits(ind, b)
}

/// Line starts that are all at most `v`, with `2 * v + 8 < 2^31`, keep every
/// lane position below `2^31`.
pub proof fn lemma_small_starts_fit(ind: Seq<u32>, v: int)
    requires
        forall|k: int| 0 <= k < ind.len() ==> #[trigger] ind[k] <= v,
        2 * v + 8 < 0x8000_0000,
    ensures
        lanes_fit(ind),
{
    assert forall|b: int| 0 <= b < separated_blocks(ind.len() as int) implies #[trigger] block_fits(ind, b) by {
        assert(16 * b + 16 < ind.len()) by (nonlinear_arith)
            requires
                0 <= b < ind.len() / 16 - 1,
        ;
        assert forall|i: int, j: int| 0 <= i < 16 && 0 <= j < 16 implies #[trigger] ind[16 * b + i] + ind[16
            * b + j + 1] - #[trigger] ind[16 * b + j] + 8 < 0x8000_0000 by {
            assert(ind[16 * b + i] <= v);
            assert(ind[16 * b + j + 1] <= v);
        }
        assert forall|i: int| 0 <= i < 16 implies #[trigger] ind[16 * b + i] + 8 < 0x8000_0000 by {
            assert(ind[16 * b + i] <= v);
        }
    }
}

/// The lanes of a block keep their positions below `2^31`.
pub open spec fn lanes_fit_block(ls: Seq<LaneModel>) -> bool {
    &&& ls.len() == 16
    &&& forall|i: int| 0 <= i < 16 ==> 0 <= #[trigger] ls[i].cur && ls[i].cur + 8 < 0x8000_0000
    &&& forall|i: int, j: int|
        0 <= i < 16 && 0 <= j < 16 ==> #[trigger] ls[i].cur + (#[trigger] ls[j].end + 1 - ls[j].cur) + 8
            < 0x8000_0000
    &&& forall|i: int| 0 <= i < 16 ==> -1 <= #[trigger] ls[i].end < 0x1_0000_0000
}

/// The state of one of the sixteen lanes that search a line for its
/// separators.
pub struct LaneModel {
    /// Position of the next byte the lane looks at.
    pub cur: int,
    /// Position of the line's terminator; the lane reads while `end > cur`.
    pub end: int,
    /// Separators still to be seen; the result is recorded when it reaches 0.
    pub cnt: int,
    /// Position just after the separator that brought `cnt` to 0, or 0.
    pub res: int,
    /// Which of the four bytes last read equal the separator. A lane that is
    /// no longer active keeps these and sees them again in every round.
    pub hits: Seq<bool>,
}

/// The low byte of the separator argument.
pub open spec fn sep_byte(separator_char: u64) -> u8 {
    (separator_char % 256) as u8
}

/// Whether the byte at `p` exists and equals the separator.
pub open spec fn byte_hit(msg: Seq<u8>, sep: u8, p: int) -> bool {
    0 <= p < msg.len() && msg[p] == sep
}

/// An active lane reads the four bytes at its position; an inactive lane
/// keeps what it read before.
pub open spec fn gather(l: LaneModel, msg: Seq<u8>, sep: u8) -> LaneModel {
    if l.end > l.cur {
        LaneModel {
            hits: seq![
                byte_hit(msg, sep, l.cur),
                byte_hit(msg, sep, l.cur + 1),
                byte_hit(msg, sep, l.cur + 2),
                byte_hit(msg, sep, l.cur + 3),
            ],
            ..l
        }
    } else {
        l
    }
}

/// One byte of a round: a hit decrements the count, the position advances,
/// and a hit that brings the count to exactly 0 records the position.
pub open spec fn take_byte(l: LaneModel, hit: bool) -> LaneModel {
    let cnt = if hit { l.cnt - 1 } else { l.cnt };
    let cur = l.cur + 1;
    LaneModel { cur, cnt, res: if hit && cnt == 0 { cur } else { l.res }, ..l }
}

/// One round of a lane: read (when active), then consume the four bytes.
pub open spec fn lane_step(l: LaneModel, msg: Seq<u8>, sep: u8) -> LaneModel {
    let g = gather(l, msg, sep);
    take_byte(take_byte(take_byte(take_byte(g, g.hits[0]), g.hits[1]), g.hits[2]), g.hits[3])
}

/// One round of all lanes.
pub open spec fn step_all(ls: Seq<LaneModel>, msg: Seq<u8>, sep: u8) -> Seq<LaneModel> {
    Seq::new(ls.len(), |i: int| lane_step(ls[i], msg, sep))
}

/// Rounds go on while some lane is active and some lane still counts.
pub open spec fn keep_going(ls: Seq<LaneModel>) -> bool {
    &&& exists|i: int| 0 <= i < ls.len() && #[trigger] ls[i].end > ls[i].cur
    &&& exists|i: int| 0 <= i < ls.len() && #[trigger] ls[i].cnt > 0
}

/// The lanes after the rounds of one block: at least one round, then more
/// while `keep_going` holds.
pub open spec fn run_rounds(ls: Seq<LaneModel>, msg: Seq<u8>, sep: u8, fuel: nat) -> Seq<LaneModel>
    decreases fuel,
{
    let next = step_all(ls, msg, sep);
    if fuel == 0 || !keep_going(next) {
        next
    } else {
        run_rounds(next, msg, sep, (fuel - 1) as nat)
    }
}

proof fn lemma_block_lanes_fit(ind: Seq<u32>, b: int, num: int, prev: Seq<LaneModel>)
    requires
        0 <= b,
        16 * b + 16 < ind.len(),
        block_fits(ind, b),
    ensures
        lanes_fit_block(block_lanes(ind, b, num, prev)),
{
    let ls = block_lanes(ind, b, num, prev);
    assert forall|i: int, j: int| 0 <= i < 16 && 0 <= j < 16 implies #[trigger] ls[i].cur + (
    #[trigger] ls[j].end + 1 - ls[j].cur) + 8 < 0x8000_0000 by {
        assert(ind[16 * b + i] + ind[16 * b + j + 1] - ind[16 * b + j] + 8 < 0x8000_0000);
    }
    assert forall|i: int| 0 <= i < 16 implies 0 <= #[trigger] ls[i].cur && ls[i].cur + 8 < 0x8000_0000 by {
        assert(ind[16 * b + i] + 8 < 0x8000_0000);
    }
}

/// The lanes a block starts from: lane `i` searches the line that begins at
/// entry `16 * b + i` and ends just before the next entry; the bytes last
/// read carry over from the previous block.
pub open spec fn block_lanes(ind: Seq<u32>, b: int, num: int, prev: Seq<LaneModel>) -> Seq<LaneModel> {
    Seq::new(
        16,
        |i: int|
            LaneModel {
                cur: ind[16 * b + i] as int,
                end: ind[16 * b + i + 1] as int - 1,
                cnt: num,
                res: 0,
                hits: prev[i].hits,
            },
    )
}

/// Lanes before the first block; nothing has been read yet.
pub open spec fn fresh_lanes() -> Seq<LaneModel> {
    Seq::new(
        16,
        |i: int| LaneModel { cur: 0, end: 0, cnt: 0, res: 0, hits: seq![false, false, false, false] },
    )
}

/// The lanes at the end of block `b`.
pub open spec fn lanes_after_block(msg: Seq<u8>, ind: Seq<u32>, num: int, sep: u8, b: nat) -> Seq<LaneModel>
    decreases b,
{
    let prev = if b == 0 {
        fresh_lanes()
    } else {
        lanes_after_block(msg, ind, num, sep, (b - 1) as nat)
    };
    run_rounds(block_lanes(ind, b as int, num, prev), msg, sep, round_fuel())
}

/// Number of blocks processed: every block but the last, whose lines would
/// need the entry after the buffer.
pub open spec fn separated_blocks(n: int) -> int {
    n / 16 - 1
}

/// The separator buffer after `detect_separator`: entry `k` of a processed
/// block holds the result of lane `k % 16` of block `k / 16`; the rest is
/// unchanged.
pub open spec fn separated_indices(
    msg: Seq<u8>,
    ind: Seq<u32>,
    old: Seq<u32>,
    num_separator: u64,
    separator_char: u64,
) -> Seq<u32> {
    Seq::new(
        old.len(),
        |k: int|
            if k < 16 * separated_blocks(ind.len() as int) {
                lanes_after_block(msg, ind, num_separator as int, sep_byte(separator_char), (k / 16) as nat)[k
                    % 16].res as u32
            } else {
                old[k]
            },
    )
}

/// Number of separator bytes in `[s, hi)`.
pub open spec fn sep_count(msg: Seq<u8>, sep: u8, s: int, hi: int) -> int
    decreases hi - s,
{
    if hi <= s {
        0
    } else {
        sep_count(msg, sep, s, hi - 1) + if byte_hit(msg, sep, hi - 1) {
            1int
        } else {
            0int
        }
    }
}

proof fn lemma_sep_count_monotone(msg: Seq<u8>, sep: u8, s: int, a: int, b: int)
    requires
        s <= a <= b,
    ensures
        sep_count(msg, sep, s, a) <= sep_count(msg, sep, s, b),
    decreases b - a,
{
    if a < b {
        lemma_sep_count_monotone(msg, sep, s, a, b - 1);
    }
}

/// A lane on its way to the `n`-th separator, found at `p`: its count and
/// result agree with the bytes of `[s, cur)`.
spec fn tracking(l: LaneModel, msg: Seq<u8>, sep: u8, s: int, n: int, p: int) -> bool {
    &&& s <= l.cur
    &&& l.cnt == n - sep_count(msg, sep, s, l.cur)
    &&& l.res == if l.cur > p {
        p + 1
    } else {
        0
    }
}

/// The `n`-th separator from `s` is at `p`.
spec fn nth_sep(msg: Seq<u8>, sep: u8, s: int, n: int, p: int) -> bool {
    &&& s <= p
    &&& byte_hit(msg, sep, p)
    &&& sep_count(msg, sep, s, p) == n - 1
}

proof fn lemma_take_tracked_byte(l: LaneModel, msg: Seq<u8>, sep: u8, s: int, n: int, p: int)
    requires
        tracking(l, msg, sep, s, n, p),
        nth_sep(msg, sep, s, n, p),
    ensures
        tracking(take_byte(l, byte_hit(msg, sep, l.cur)), msg, sep, s, n, p),
        take_byte(l, byte_hit(msg, sep, l.cur)).cur == l.cur + 1,
        take_byte(l, byte_hit(msg, sep, l.cur)).end == l.end,
{
    let q = l.cur;
    assert(sep_count(msg, sep, s, q + 1) == sep_count(msg, sep, s, q) + if byte_hit(msg, sep, q) {
        1int
    } else {
        0int
    });
    if q < p {
        lemma_sep_count_monotone(msg, sep, s, q + 1, p);
    } else if q > p {
        lemma_sep_count_monotone(msg, sep, s, p + 1, q);
        assert(sep_count(msg, sep, s, p + 1) == n);
    }
}

/// A round read in full while the `n`-th separator lies ahead keeps the lane
/// tracking.
proof fn lemma_tracked_round(l: LaneModel, msg: Seq<u8>, sep: u8, s: int, n: int, p: int)
    requires
        tracking(l, msg, sep, s, n, p),
        nth_sep(msg, sep, s, n, p),
        l.end > l.cur,
    ensures
        tracking(lane_step(l, msg, sep), msg, sep, s, n, p),
        lane_step(l, msg, sep).cur == l.cur + 4,
        lane_step(l, msg, sep).end == l.end,
{
    let g = gather(l, msg, sep);
    lemma_take_tracked_byte(g, msg, sep, s, n, p);
    let g1 = take_byte(g, g.hits[0]);
    lemma_take_tracked_byte(g1, msg, sep, s, n, p);
    let g2 = take_byte(g1, g.hits[1]);
    lemma_take_tracked_byte(g2, msg, sep, s, n, p);
    let g3 = take_byte(g2, g.hits[2]);
    lemma_take_tracked_byte(g3, msg, sep, s, n, p);
}

/// Once the count is used up the result no longer changes.
proof fn lemma_settled_round(l: LaneModel, msg: Seq<u8>, sep: u8, r: int)
    requires
        l.cnt <= 0,
        l.res == r,
    ensures
        lane_step(l, msg, sep).cnt <= 0,
        lane_step(l, msg, sep).res == r,
{
}

/// A lane that tracks the `n`-th separator at `p`, where the group of four
/// bytes holding `p` begins at `g0` inside the line, ends with its result at
/// `p + 1`.
proof fn lemma_rounds_find(
    ls: Seq<LaneModel>,
    msg: Seq<u8>,
    sep: u8,
    fuel: nat,
    i: int,
    s: int,
    n: int,
    p: int,
    g0: int,
)
    requires
        0 <= i < ls.len(),
        nth_sep(msg, sep, s, n, p),
        g0 <= p < g0 + 4,
        g0 < ls[i].end,
        (tracking(ls[i], msg, sep, s, n, p) && ls[i].cur <= g0 && (g0 - ls[i].cur) % 4 == 0 && (g0 - ls[i].cur)
            / 4 <= fuel) || (ls[i].cnt <= 0 && ls[i].res == p + 1),
    ensures
        run_rounds(ls, msg, sep, fuel)[i].res == p + 1,
    decreases fuel,
{
    let next = step_all(ls, msg, sep);
    let l = ls[i];
    if l.cnt <= 0 && l.res == p + 1 {
        lemma_settled_round(l, msg, sep, p + 1);
    } else {
        lemma_tracked_round(l, msg, sep, s, n, p);
        if l.cur == g0 {
            let m = lane_step(l, msg, sep);
            lemma_sep_count_monotone(msg, sep, s, p + 1, g0 + 4);
            assert(sep_count(msg, sep, s, p + 1) == n);
            assert(m.cnt <= 0);
        }
    }
    let m = next[i];
    assert(m == lane_step(l, msg, sep));
    if fuel == 0 || !keep_going(next) {
        if !(m.cnt <= 0 && m.res == p + 1) {
            assert(m.cur <= g0);
            lemma_sep_count_monotone(msg, sep, s, m.cur, p);
            assert(m.end > m.cur);
            assert(m.cnt > 0);
            assert(keep_going(next));
        }
    } else {
        lemma_rounds_find(next, msg, sep, (fuel - 1) as nat, i, s, n, p, g0);
    }
}

/// When the `n`-th separator of a line lies inside the line, the entry that
/// `detect_separator` writes for that line is the position just after it.
pub proof fn lemma_detect_finds_separator(
    msg: Seq<u8>,
    ind: Seq<u32>,
    old: Seq<u32>,
    num_separator: u64,
    separator_char: u64,
    b: int,
    i: int,
    p: int,
)
    requires
        ind.len() >= 32,
        ind.len() % 16 == 0,
        old.len() >= ind.len() - 16,
        1 <= num_separator < 0x8000_0000,
        0 <= b < separated_blocks(ind.len() as int),
        0 <= i < 16,
        ind[16 * b + i] <= p < ind[16 * b + i + 1] - 1,
        byte_hit(msg, sep_byte(separator_char), p),
        sep_count(msg, sep_byte(separator_char), ind[16 * b + i] as int, p) == num_separator - 1,
    ensures
        separated_indices(msg, ind, old, num_separator, separator_char)[16 * b + i] == p + 1,
{
    let sep = sep_byte(separator_char);
    let num = num_separator as int;
    let s = ind[16 * b + i] as int;
    let g0 = p - (p - s) % 4;
    let prev = if b == 0 {
        fresh_lanes()
    } else {
        lanes_after_block(msg, ind, num, sep, (b - 1) as nat)
    };
    let ls = block_lanes(ind, b, num, prev);
    assert(ls[i].cur == s && ls[i].cnt == num && ls[i].res == 0);
    assert((g0 - s) / 4 <= round_fuel()) by (nonlinear_arith)
        requires
            g0 == p - (p - s) % 4,
            0 <= s <= p,
            p < 0x1_0000_0000,
    ;
    assert((g0 - s) % 4 == 0 && g0 <= p && p < g0 + 4) by (nonlinear_arith)
        requires
            g0 == p - (p - s) % 4,
            s <= p,
    ;
    lemma_rounds_find(ls, msg, sep, round_fuel(), i, s, num, p, g0);
    assert(lanes_after_block(msg, ind, num, sep, b as nat) == run_rounds(ls, msg, sep, round_fuel()));
    let k = 16 * b + i;
    assert(k / 16 == b && k % 16 == i) by (nonlinear_arith)
        requires
            k == 16 * b + i,
            0 <= i < 16,
    ;
    assert(k < 16 * separated_blocks(ind.len() as int));
}

/// Number of positions in `[lo, hi)` of the message holding the byte `c`.
pub open spec fn bytes_equal_count(msg: Seq<u8>, c: u8, lo: int, hi: int) -> int
    decreases hi - lo,
{
    if hi <= lo {
        0
    } else {
        bytes_equal_count(msg, c, lo, hi - 1) + if 0 <= hi - 1 < msg.len() && msg[hi - 1] == c {
            1int
        } else {
            0int
        }
    }
}

proof fn lemma_bytes_equal_count(msg: Seq<u8>, c: u8, lo: int, hi: int)
    ensures
        bytes_equal_count(msg, c, lo, hi) == sep_count(msg, c, lo, hi),
    decreases hi - lo,
{
    if hi > lo {
        lemma_bytes_equal_count(msg, c, lo, hi - 1);
    }
}

/// The entry for a line is the start of the field after its `n`-th
/// separator, counting every byte equal to the low byte of
/// `separator_char`: when the line starting at `s` holds such a byte at `p`
/// before its end, with exactly `n - 1` such bytes in `[s, p)`, the entry
/// is `p + 1`.
pub proof fn lemma_detect_field_start(
    msg: Seq<u8>,
    ind: Seq<u32>,
    old: Seq<u32>,
    num_separator: u64,
    separator_char: u64,
    b: int,
    i: int,
    p: int,
)
    requires
        ind.len() >= 32,
        ind.len() % 16 == 0,
        old.len() >= ind.len() - 16,
        1 <= num_separator < 0x8000_0000,
        0 <= b < separated_blocks(ind.len() as int),
        0 <= i < 16,
        ind[16 * b + i] <= p < ind[16 * b + i + 1] - 1,
        p < msg.len(),
        msg[p] == (separator_char % 256) as u8,
        bytes_equal_count(msg, (separator_char % 256) as u8, ind[16 * b + i] as int, p) == num_separator
            - 1,
    ensures
        separated_indices(msg, ind, old, num_separator, separator_char)[16 * b + i] == p + 1,
{
    lemma_bytes_equal_count(msg, (separator_char % 256) as u8, ind[16 * b + i] as int, p);
    lemma_detect_finds_separator(msg, ind, old, num_separator, separator_char, b, i, p);
}

/// The separator before position `q` that brings the count to `m`.
proof fn lemma_prev_sep(msg: Seq<u8>, sep: u8, s: int, q: int, m: int) -> (p: int)
    requires
        s <= q,
        m >= 1,
        sep_count(msg, sep, s, q) == m,
    ensures
        s <= p < q,
        byte_hit(msg, sep, p),
        sep_count(msg, sep, s, p) == m - 1,
        forall|r: int| p < r < q ==> !#[trigger] byte_hit(msg, sep, r),
    decreases q - s,
{
    if byte_hit(msg, sep, q - 1) {
        q - 1
    } else {
        lemma_prev_sep(msg, sep, s, q - 1, m)
    }
}

/// Fields follow one another: for a line whose `(n + 1)`-th separator lies
/// inside it, the entry found with `n + 1` separators is just past that
/// separator, the entry found with `n` lies before it, and no separator lies
/// between the two entries (the `n`-th field runs from the first entry up to
/// the separator before the second).
pub proof fn lemma_detect_consecutive_fields(
    msg: Seq<u8>,
    ind: Seq<u32>,
    old1: Seq<u32>,
    old2: Seq<u32>,
    n: u64,
    separator_char: u64,
    b: int,
    i: int,
    p2: int,
)
    requires
        ind.len() >= 32,
        ind.len() % 16 == 0,
        old1.len() >= ind.len() - 16,
        old2.len() >= ind.len() - 16,
        1 <= n,
        n + 1 < 0x8000_0000,
        0 <= b < separated_blocks(ind.len() as int),
        0 <= i < 16,
        ind[16 * b + i] <= p2 < ind[16 * b + i + 1] - 1,
        byte_hit(msg, sep_byte(separator_char), p2),
        sep_count(msg, sep_byte(separator_char), ind[16 * b + i] as int, p2) == n,
    ensures
        ({
            let o1 = separated_indices(msg, ind, old1, n, separator_char)[16 * b + i];
            let o2 = separated_indices(msg, ind, old2, (n + 1) as u64, separator_char)[16 * b + i];
            &&& o2 == p2 + 1
            &&& o1 < o2
            &&& forall|q: int| o1 <= q < o2 - 1 ==> !#[trigger] byte_hit(msg, sep_byte(separator_char), q)
        }),
{
    let sep = sep_byte(separator_char);
    let s = ind[16 * b + i] as int;
    let p1 = lemma_prev_sep(msg, sep, s, p2, n as int);
    lemma_detect_finds_separator(msg, ind, old1, n, separator_char, b, i, p1);
    lemma_detect_finds_separator(msg, ind, old2, (n + 1) as u64, separator_char, b, i, p2);
}

/// A property of lane `i` that every round keeps holds at the end of the
/// rounds.
proof fn lemma_rounds_keep(
    ls: Seq<LaneModel>,
    msg: Seq<u8>,
    sep: u8,
    fuel: nat,
    i: int,
    inv: spec_fn(LaneModel) -> bool,
)
    requires
        0 <= i < ls.len(),
        inv(ls[i]),
        forall|l: LaneModel| inv(l) ==> inv(#[trigger] lane_step(l, msg, sep)),
    ensures
        inv(run_rounds(ls, msg, sep, fuel)[i]),
    decreases fuel,
{
    let next = step_all(ls, msg, sep);
    assert(next[i] == lane_step(ls[i], msg, sep));
    if !(fuel == 0 || !keep_going(next)) {
        lemma_rounds_keep(next, msg, sep, (fuel - 1) as nat, i, inv);
    }
}

/// A lane still reading a line that holds fewer than `n` separators in the
/// groups it reads, whose last group starts at `g`.
spec fn short_reading(l: LaneModel, msg: Seq<u8>, sep: u8, s: int, n: int, g: int, e: int) -> bool {
    &&& s <= l.cur <= g
    &&& (g - l.cur) % 4 == 0
    &&& l.end == e
    &&& l.cnt == n - sep_count(msg, sep, s, l.cur)
    &&& l.res == 0
}

/// A lane past the end of its line whose result, if any, lies past the end.
spec fn short_done(l: LaneModel, e: int) -> bool {
    &&& l.end == e
    &&& e <= l.cur
    &&& (l.res == 0 || l.res > e)
}

/// A lane past the end of its line with no result and no separator in the
/// bytes it last read.
spec fn short_quiet(l: LaneModel, e: int) -> bool {
    &&& l.end == e
    &&& e <= l.cur
    &&& l.res == 0
    &&& l.hits.len() == 4
    &&& !l.hits[0] && !l.hits[1] && !l.hits[2] && !l.hits[3]
}

proof fn lemma_take_short_byte(l: LaneModel, msg: Seq<u8>, sep: u8, s: int, n: int, g: int)
    requires
        s <= l.cur < g + 4,
        l.cnt == n - sep_count(msg, sep, s, l.cur),
        l.res == 0,
        sep_count(msg, sep, s, g + 4) < n,
    ensures
        take_byte(l, byte_hit(msg, sep, l.cur)).cnt == n - sep_count(msg, sep, s, l.cur + 1),
        take_byte(l, byte_hit(msg, sep, l.cur)).res == 0,
        take_byte(l, byte_hit(msg, sep, l.cur)).cur == l.cur + 1,
        take_byte(l, byte_hit(msg, sep, l.cur)).end == l.end,
{
    lemma_sep_count_monotone(msg, sep, s, l.cur + 1, g + 4);
}

/// A round of a lane still reading a short line.
proof fn lemma_short_round(l: LaneModel, msg: Seq<u8>, sep: u8, s: int, n: int, g: int, e: int)
    requires
        short_reading(l, msg, sep, s, n, g, e),
        g < e <= g + 4,
        sep_count(msg, sep, s, g + 4) < n,
    ensures
        l.cur < g ==> short_reading(lane_step(l, msg, sep), msg, sep, s, n, g, e),
        l.cur == g ==> short_done(lane_step(l, msg, sep), e),
        l.cur == g ==> lane_step(l, msg, sep).hits == seq![
            byte_hit(msg, sep, g),
            byte_hit(msg, sep, g + 1),
            byte_hit(msg, sep, g + 2),
            byte_hit(msg, sep, g + 3),
        ],
        l.cur == g ==> lane_step(l, msg, sep).res == 0,
{
    let g0 = gather(l, msg, sep);
    lemma_take_short_byte(g0, msg, sep, s, n, g);
    let g1 = take_byte(g0, g0.hits[0]);
    lemma_take_short_byte(g1, msg, sep, s, n, g);
    let g2 = take_byte(g1, g0.hits[1]);
    lemma_take_short_byte(g2, msg, sep, s, n, g);
    let g3 = take_byte(g2, g0.hits[2]);
    lemma_take_short_byte(g3, msg, sep, s, n, g);
}

/// For a line that holds fewer than `num_separator` separators in the
/// four-byte groups read from it (the last of which starts at `g`), the
/// lane records no position inside the line: its result is 0, or a
/// position past the line's end produced by the rounds in which it sees its
/// last four bytes again. When those last four bytes hold no separator, the
/// result is 0 and so is the entry written for the line.
pub proof fn lemma_detect_short_line(
    msg: Seq<u8>,
    ind: Seq<u32>,
    old: Seq<u32>,
    num_separator: u64,
    separator_char: u64,
    b: int,
    i: int,
)
    requires
        ind.len() >= 32,
        ind.len() % 16 == 0,
        old.len() >= ind.len() - 16,
        0 <= b < separated_blocks(ind.len() as int),
        0 <= i < 16,
        ({
            let s = ind[16 * b + i] as int;
            let e = ind[16 * b + i + 1] - 1;
            let g = s + 4 * ((e - s - 1) / 4);
            s < e ==> sep_count(msg, sep_byte(separator_char), s, g + 4) < num_separator
        }),
    ensures
        ({
            let s = ind[16 * b + i] as int;
            let e = ind[16 * b + i + 1] - 1;
            let g = s + 4 * ((e - s - 1) / 4);
            let sep = sep_byte(separator_char);
            let r = lanes_after_block(msg, ind, num_separator as int, sep, b as nat)[i].res;
            &&& separated_indices(msg, ind, old, num_separator, separator_char)[16 * b + i] == r as u32
            &&& (r == 0 || r > e)
            &&& (s < e && (forall|q: int| g <= q < g + 4 ==> !#[trigger] byte_hit(msg, sep, q))) ==> r == 0
                && separated_indices(msg, ind, old, num_separator, separator_char)[16 * b + i] == 0
        }),
{
    let sep = sep_byte(separator_char);
    let n = num_separator as int;
    let s = ind[16 * b + i] as int;
    let e = ind[16 * b + i + 1] - 1;
    let g = s + 4 * ((e - s - 1) / 4);
    let prev = if b == 0 {
        fresh_lanes()
    } else {
        lanes_after_block(msg, ind, n, sep, (b - 1) as nat)
    };
    let ls = block_lanes(ind, b, n, prev);
    assert(ls[i].cur == s && ls[i].cnt == n && ls[i].res == 0 && ls[i].end == e);
    if s < e {
        assert(s <= g && (g - s) % 4 == 0 && g < e && e <= g + 4) by (nonlinear_arith)
            requires
                g == s + 4 * ((e - s - 1) / 4),
                s < e,
        ;
    }
    let inv1 = |l: LaneModel| (s < e && short_reading(l, msg, sep, s, n, g, e)) || short_done(l, e);
    assert forall|l: LaneModel| inv1(l) implies inv1(#[trigger] lane_step(l, msg, sep)) by {
        if s < e && short_reading(l, msg, sep, s, n, g, e) {
            lemma_short_round(l, msg, sep, s, n, g, e);
        }
    }
    lemma_rounds_keep(ls, msg, sep, round_fuel(), i, inv1);
    assert(lanes_after_block(msg, ind, n, sep, b as nat) == run_rounds(ls, msg, sep, round_fuel()));
    if s < e && (forall|q: int| g <= q < g + 4 ==> !#[trigger] byte_hit(msg, sep, q)) {
        let inv2 = |l: LaneModel| short_reading(l, msg, sep, s, n, g, e) || short_quiet(l, e);
        assert forall|l: LaneModel| inv2(l) implies inv2(#[trigger] lane_step(l, msg, sep)) by {
            if short_reading(l, msg, sep, s, n, g, e) {
                lemma_short_round(l, msg, sep, s, n, g, e);
                assert(!byte_hit(msg, sep, g) && !byte_hit(msg, sep, g + 1));
                assert(!byte_hit(msg, sep, g + 2) && !byte_hit(msg, sep, g + 3));
            }
        }
        lemma_rounds_keep(ls, msg, sep, round_fuel(), i, inv2);
    }
    let k = 16 * b + i;
    assert(k / 16 == b && k % 16 == i) by (nonlinear_arith)
        requires
            k == 16 * b + i,
            0 <= i < 16,
    ;
    assert(k < 16 * separated_blocks(ind.len() as int));
}

/// Whether block `b` keeps its lane positions below `2^31`.
fn block_fits_exec(ind: &[u32], b: usize) -> (ok: bool)
    requires
        16 * b + 16 < ind.len(),
    ensures
        ok == block_fits(ind@, b as int),
{
    let base = 16 * b;
    let mut i: usize = 0;
    while i < 16
        invariant
            0 <= i <= 16,
            base == 16 * b,
            16 * b + 16 < ind.len(),
            forall|k: int| 0 <= k < i ==> #[trigger] ind@[16 * b + k] + 8 < 0x8000_0000,
            forall|k: int, j: int|
                0 <= k < i && 0 <= j < 16 ==> #[trigger] ind@[16 * b + k] + ind@[16 * b + j + 1] - #[trigger] ind@[16
                    * b + j] + 8 < 0x8000_0000,
        decreases 16 - i,
    {
        if ind[base + i] as i64 + 8 >= 0x8000_0000 {
            assert(!(ind@[16 * b + i] + 8 < 0x8000_0000));
            return false;
        }
        let mut j: usize = 0;
        while j < 16
            invariant
                0 <= i < 16,
                0 <= j <= 16,
                base == 16 * b,
                16 * b + 16 < ind.len(),
                forall|jj: int| 0 <= jj < j ==> ind@[16 * b + i] + ind@[16 * b + jj + 1] - #[trigger] ind@[16 * b
                    + jj] + 8 < 0x8000_0000,
            decreases 16 - j,
        {
            if ind[base + i] as i64 + ind[base + j + 1] as i64 - ind[base + j] as i64 + 8 >= 0x8000_0000 {
                assert(!(ind@[16 * b + i] + ind@[16 * b + j + 1] - ind@[16 * b + j] + 8 < 0x8000_0000));
                return false;
            }
            j = j + 1;
        }
        i = i + 1;
    }
    true
}

/// Whether every processed block keeps its lane positions below `2^31`:
/// the run-time test of `lanes_fit`.
pub fn lanes_fit_exec(ind: &[u32]) -> (ok: bool)
    ensures
        ok == lanes_fit(ind@),
{
    let n = ind.len();
    if n < 32 {
        assert(separated_blocks(n as int) <= 0);
        return true;
    }
    let nb = n / 16 - 1;
    let mut b: usize = 0;
    while b < nb
        invariant
            nb == n / 16 - 1,
            n == ind.len(),
            n >= 32,
            nb == separated_blocks(ind@.len() as int),
            0 <= b <= nb,
            forall|bb: int| 0 <= bb < b ==> #[trigger] block_fits(ind@, bb),
        decreases nb - b,
    {
        assert(16 * b + 16 < n) by (nonlinear_arith)
            requires
                b < nb,
                nb == n / 16 - 1,
        ;
        if !block_fits_exec(ind, b) {
            return false;
        }
        b = b + 1;
    }
    true
}

/// One lane as the executable code keeps it.
#[derive(Clone, Copy)]
struct Lane {
    cur: i64,
    end: i64,
    cnt: i64,
    res: i64,
    h0: bool,
    h1: bool,
    h2: bool,
    h3: bool,
}

impl Lane {
    spec fn model(self) -> LaneModel {
        LaneModel {
            cur: self.cur as int,
            end: self.end as int,
            cnt: self.cnt as int,
            res: self.res as int,
            hits: seq![self.h0, self.h1, self.h2, self.h3],
        }
    }
}

spec fn models(v: Seq<Lane>) -> Seq<LaneModel> {
    Seq::new(v.len(), |i: int| v[i].model())
}

/// Bounds that a lane keeps through the rounds of a block: after `t` rounds
/// it has moved `4 * t` bytes and seen at most `4 * t` separators.
spec fn lane_in_bounds(l: Lane, l0: LaneModel, t: int) -> bool {
    &&& 0 <= l0.cur < 0x8000_0000
    &&& -1 <= l0.end < 0x1_0000_0000
    &&& 0 <= l0.cnt < 0x8000_0000
    &&& 0 <= t
    &&& l.cur == l0.cur + 4 * t
    &&& l.cur < 0x8000_0000
    &&& l.end == l0.end
    &&& l0.cnt - 4 * t <= l.cnt <= l0.cnt
    &&& 0 <= l.res <= l.cur
}

fn hit_at(message: &[u8], p: usize, sep: u8) -> (h: bool)
    ensures
        h == byte_hit(message@, sep, p as int),
{
    p < message.len() && message[p] == sep
}

fn take_byte_exec(l: Lane, hit: bool) -> (r: Lane)
    requires
        0 <= l.cur < 0x7FFF_FFFF,
        l.cnt > -0x1_0000_0000,
    ensures
        r.model() == take_byte(l.model(), hit),
        r.h0 == l.h0 && r.h1 == l.h1 && r.h2 == l.h2 && r.h3 == l.h3,
{
    let mut r = l;
    if hit {
        r.cnt = r.cnt - 1;
    }
    r.cur = r.cur + 1;
    if hit && r.cnt == 0 {
        r.res = r.cur;
    }
    r
}

fn lane_step_exec(l: Lane, message: &[u8], sep: u8) -> (r: Lane)
    requires
        0 <= l.cur < 0x7FFF_FFFC,
        l.cnt > -0x1_0000_0000 + 8,
    ensures
        r.model() == lane_step(l.model(), message@, sep),
{
    let mut g = l;
    if l.end > l.cur {
        let c = l.cur as usize;
        g.h0 = hit_at(message, c, sep);
        g.h1 = hit_at(message, c + 1, sep);
        g.h2 = hit_at(message, c + 2, sep);
        g.h3 = hit_at(message, c + 3, sep);
    }
    assert(g.model() == gather(l.model(), message@, sep));
    let r0 = take_byte_exec(g, g.h0);
    let r1 = take_byte_exec(r0, g.h1);
    let r2 = take_byte_exec(r1, g.h2);
    take_byte_exec(r2, g.h3)
}

/// One round of all sixteen lanes.
fn step_lanes(lanes: &mut Vec<Lane>, message: &[u8], sep: u8, Ghost(init): Ghost<Seq<LaneModel>>, Ghost(t): Ghost<int>)
    requires
        old(lanes).len() == 16,
        init.len() == 16,
        0 <= t < round_fuel(),
        forall|i: int| 0 <= i < 16 ==> lane_in_bounds(#[trigger] old(lanes)@[i], init[i], t),
        forall|i: int| 0 <= i < 16 ==> #[trigger] init[i].cur + 4 * (t + 1) < 0x8000_0000,
    ensures
        final(lanes).len() == 16,
        models(final(lanes)@) == step_all(models(old(lanes)@), message@, sep),
        forall|i: int| 0 <= i < 16 ==> lane_in_bounds(#[trigger] final(lanes)@[i], init[i], t + 1),
{
    let ghost before = lanes@;
    let mut i: usize = 0;
    while i < 16
        invariant
            0 <= i <= 16,
            lanes.len() == 16,
            before.len() == 16,
            before == old(lanes)@,
            init.len() == 16,
            0 <= t < round_fuel(),
            forall|k: int| 0 <= k < 16 ==> lane_in_bounds(#[trigger] before[k], init[k], t),
            forall|k: int| 0 <= k < 16 ==> #[trigger] init[k].cur + 4 * (t + 1) < 0x8000_0000,
            forall|k: int| 0 <= k < i ==> #[trigger] lanes@[k].model() == lane_step(before[k].model(), message@, sep),
            forall|k: int| 0 <= k < i ==> lane_in_bounds(#[trigger] lanes@[k], init[k], t + 1),
            forall|k: int| i <= k < 16 ==> #[trigger] lanes@[k] == before[k],
        decreases 16 - i,
    {
        let l = lanes[i];
        assert(lane_in_bounds(before[i as int], init[i as int], t));
        assert(init[i as int].cur + 4 * (t + 1) < 0x8000_0000);
        let r = lane_step_exec(l, message, sep);
        lanes.set(i, r);
        i = i + 1;
    }
    assert(models(lanes@) =~= step_all(models(before), message@, sep));
}

/// Whether another round follows: some lane is active and some lane still
/// counts.
fn keep_going_exec(lanes: &Vec<Lane>) -> (go: bool)
    requires
        lanes.len() == 16,
    ensures
        go == keep_going(models(lanes@)),
{
    let ghost ms = models(lanes@);
    let mut any_active = false;
    let mut any_counting = false;
    let mut i: usize = 0;
    while i < 16
        invariant
            0 <= i <= 16,
            lanes.len() == 16,
            ms == models(lanes@),
            any_active == exists|k: int| 0 <= k < i && #[trigger] ms[k].end > ms[k].cur,
            any_counting == exists|k: int| 0 <= k < i && #[trigger] ms[k].cnt > 0,
        decreases 16 - i,
    {
        assert(ms[i as int] == lanes@[i as int].model());
        assert(ms[i as int].end == lanes@[i as int].end && ms[i as int].cur == lanes@[i as int].cur);
        assert(ms[i as int].cnt == lanes@[i as int].cnt);
        if lanes[i].end > lanes[i].cur {
            any_active = true;
        }
        if lanes[i].cnt > 0 {
            any_counting = true;
        }
        i = i + 1;
    }
    any_active && any_counting
}

/// Runs the rounds of one block, starting from `lanes`.
fn run_block(lanes: &mut Vec<Lane>, message: &[u8], sep: u8)
    requires
        old(lanes).len() == 16,
        forall|i: int| 0 <= i < 16 ==> lane_in_bounds(#[trigger] old(lanes)@[i], old(lanes)@[i].model(), 0),
        lanes_fit_block(models(old(lanes)@)),
    ensures
        final(lanes).len() == 16,
        models(final(lanes)@) == run_rounds(models(old(lanes)@), message@, sep, round_fuel()),
        forall|i: int| 0 <= i < 16 ==> 0 <= #[trigger] final(lanes)@[i].res < 0x8000_0000,
{
    let ghost init = models(lanes@);
    let ghost mut t: int = 0;
    loop
        invariant_except_break
            lanes.len() == 16,
            init.len() == 16,
            lanes_fit_block(init),
            0 <= t < round_fuel(),
            t == 0 || exists|j: int| 0 <= j < 16 && 4 * t < #[trigger] init[j].end - init[j].cur,
            run_rounds(init, message@, sep, round_fuel()) == run_rounds(
                models(lanes@),
                message@,
                sep,
                (round_fuel() - t) as nat,
            ),
            forall|i: int| 0 <= i < 16 ==> lane_in_bounds(#[trigger] lanes@[i], init[i], t),
        ensures
            lanes.len() == 16,
            models(lanes@) == run_rounds(init, message@, sep, round_fuel()),
            forall|i: int| 0 <= i < 16 ==> 0 <= #[trigger] lanes@[i].res < 0x8000_0000,
        decreases round_fuel() - t,
    {
        let ghost before = models(lanes@);
        proof {
            assert forall|i: int| 0 <= i < 16 implies #[trigger] init[i].cur + 4 * (t + 1) < 0x8000_0000 by {
                if t > 0 {
                    let j = choose|j: int| 0 <= j < 16 && 4 * t < #[trigger] init[j].end - init[j].cur;
                    assert(init[i].cur + (init[j].end + 1 - init[j].cur) + 8 < 0x8000_0000);
                } else {
                    assert(init[i].cur + 8 < 0x8000_0000);
                }
            }
        }
        step_lanes(lanes, message, sep, Ghost(init), Ghost(t));
        assert forall|i: int| 0 <= i < 16 implies 0 <= #[trigger] lanes@[i].res < 0x8000_0000 by {
            assert(lane_in_bounds(lanes@[i], init[i], t + 1));
        }
        let go = keep_going_exec(lanes);
        if !go {
            break;
        }
        proof {
            let ms = models(lanes@);
            let k = choose|k: int| 0 <= k < ms.len() && #[trigger] ms[k].end > ms[k].cur;
            assert(lane_in_bounds(lanes@[k], init[k], t + 1));
            assert(ms[k] == lanes@[k].model());
            assert(4 * (t + 1) < init[k].end - init[k].cur);
        }
        proof {
            t = t + 1;
        }
    }
}

/// Locates, in each line, the position just after its `num_separator`-th
/// separator (the low byte of `separator_char`). Line `k` starts at
/// `indices[k]` and is read while the position is below `indices[k + 1] - 1`,
/// four bytes at a time (the last group may reach past it); lines are searched in
/// blocks of 16, four bytes per round, and every block but the last is
/// processed. A line searched to its end without reaching the count keeps
/// looking at the last four bytes it read while other lines in its block are
/// still being searched; a line whose count is not reached within the bytes
/// it reads yields 0, or a position past its end when those last four bytes
/// hold separators (`lemma_detect_short_line`).
/// Lane positions are signed 32-bit values, so the starts must keep every
/// position a lane reaches below `2^31` (`lanes_fit`).
pub fn detect_separator(
    message: &[u8],
    indices: &[u32],
    separator_indices: &mut Vec<u32>,
    num_separator: u64,
    separator_char: u64,
)
    requires
        indices.len() >= 32,
        indices.len() % 16 == 0,
        old(separator_indices).len() >= indices.len() - 16,
        lanes_fit(indices@),
        num_separator < 0x8000_0000,
    ensures
        final(separator_indices)@ == separated_indices(
            message@,
            indices@,
            old(separator_indices)@,
            num_separator,
            separator_char,
        ),
{
    let ghost msg = message@;
    let ghost ind = indices@;
    let ghost old_out = separator_indices@;
    let sep: u8 = (separator_char % 256) as u8;
    let num = num_separator as i64;
    let nb = indices.len() / 16 - 1;
    let mut lanes: Vec<Lane> = Vec::new();
    let mut i: usize = 0;
    while i < 16
        invariant
            0 <= i <= 16,
            lanes.len() == i,
            forall|k: int| 0 <= k < i ==> #[trigger] lanes@[k].model() == fresh_lanes()[k],
        decreases 16 - i,
    {
        lanes.push(Lane { cur: 0, end: 0, cnt: 0, res: 0, h0: false, h1: false, h2: false, h3: false });
        i = i + 1;
    }
    assert(models(lanes@) =~= fresh_lanes());
    let mut b: usize = 0;
    while b < nb
        invariant
            msg == message@,
            ind == indices@,
            old_out == old(separator_indices)@,
            nb == indices.len() / 16 - 1,
            nb == separated_blocks(ind.len() as int),
            indices.len() % 16 == 0,
            indices.len() >= 32,
            separator_indices.len() == old_out.len(),
            old_out.len() >= indices.len() - 16,
            lanes_fit(ind),
            num == num_separator,
            num_separator < 0x8000_0000,
            sep == sep_byte(separator_char),
            0 <= b <= nb,
            lanes.len() == 16,
            models(lanes@) == if b == 0 {
                fresh_lanes()
            } else {
                lanes_after_block(msg, ind, num as int, sep, (b - 1) as nat)
            },
            forall|bb: int, j: int|
                0 <= bb < b && 0 <= j < 16 ==> #[trigger] separator_indices@[16 * bb + j]
                    == lanes_after_block(msg, ind, num as int, sep, bb as nat)[j].res as u32,
            forall|k: int| 16 * b <= k < old_out.len() ==> #[trigger] separator_indices@[k] == old_out[k],
        decreases nb - b,
    {
        let ghost prev = models(lanes@);
        let base = 16 * b;
        assert(block_fits(ind, b as int));
        let mut i: usize = 0;
        while i < 16
            invariant
                0 <= i <= 16,
                lanes.len() == 16,
                prev.len() == 16,
                base == 16 * b,
                b < nb,
                nb == indices.len() / 16 - 1,
                ind == indices@,
                block_fits(ind, b as int),
                num == num_separator,
                num_separator < 0x8000_0000,
                forall|k: int| 0 <= k < i ==> #[trigger] lanes@[k].model() == block_lanes(ind, b as int, num as int, prev)[k],
                forall|k: int| 0 <= k < i ==> lane_in_bounds(#[trigger] lanes@[k], lanes@[k].model(), 0),
                forall|k: int| i <= k < 16 ==> #[trigger] lanes@[k].model() == prev[k],
            decreases 16 - i,
        {
            let mut l = lanes[i];
            assert(l.model() == prev[i as int]);
            assert(ind[16 * b + i] + 8 < 0x8000_0000);
            l.cur = indices[base + i] as i64;
            l.end = indices[base + i + 1] as i64 - 1;
            l.cnt = num;
            l.res = 0;
            lanes.set(i, l);
            i = i + 1;
        }
        proof {
            assert(models(lanes@) =~= block_lanes(ind, b as int, num as int, prev));
            lemma_block_lanes_fit(ind, b as int, num as int, prev);
        }
        run_block(&mut lanes, message, sep);
        proof {
            assert(models(lanes@) == lanes_after_block(msg, ind, num as int, sep, b as nat));
        }
        let mut j: usize = 0;
        while j < 16
            invariant
                0 <= j <= 16,
                lanes.len() == 16,
                base == 16 * b,
                b < nb,
                separator_indices.len() == old_out.len(),
                old_out.len() >= indices.len() - 16,
                nb == indices.len() / 16 - 1,
                models(lanes@) == lanes_after_block(msg, ind, num as int, sep, b as nat),
                forall|k: int| 0 <= k < 16 ==> 0 <= #[trigger] lanes@[k].res < 0x8000_0000,
                forall|bb: int, jj: int|
                    0 <= bb < b && 0 <= jj < 16 ==> #[trigger] separator_indices@[16 * bb + jj]
                        == lanes_after_block(msg, ind, num as int, sep, bb as nat)[jj].res as u32,
                forall|jj: int|
                    0 <= jj < j ==> #[trigger] separator_indices@[16 * b + jj]
                        == lanes_after_block(msg, ind, num as int, sep, b as nat)[jj].res as u32,
                forall|k: int| 16 * b + j <= k < old_out.len() ==> #[trigger] separator_indices@[k] == old_out[k],
            decreases 16 - j,
        {
            assert(models(lanes@)[j as int] == lanes@[j as int].model());
            separator_indices.set(base + j, lanes[j].res as u32);
            j = j + 1;
        }
        b = b + 1;
    }
    proof {
        assert forall|k: int| 0 <= k < old_out.len() implies #[trigger] separator_indices@[k]
            == separated_indices(msg, ind, old_out, num_separator, separator_char)[k] by {
            if k < 16 * nb {
                let bb = k / 16;
                let jj = k % 16;
                assert(k == 16 * bb + jj && 0 <= jj < 16 && 0 <= bb < nb) by (nonlinear_arith)
                    requires
                        0 <= k < 16 * nb,
                        bb == k / 16,
                        jj == k % 16,
                ;
            }
        }
        assert(separator_indices@ =~= separated_indices(msg, ind, old_out, num_separator, separator_char));
    }
}

} // verus!
