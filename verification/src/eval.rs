use vstd::prelude::*;

verus! {

/// Number of positions examined per group.
pub const GROUP: usize = 64;

/// The four bytes at `x` read as a little-endian 32-bit word.
pub open spec fn le_word(msg: Seq<u8>, x: int) -> int {
    msg[x] + 256 * msg[x + 1] + 65536 * msg[x + 2] + 16777216 * msg[x + 3]
}

/// Whether the four bytes at `x` exist and spell `pattern` (little-endian).
pub open spec fn pattern_at(msg: Seq<u8>, x: int, pattern: u32) -> bool {
    0 <= x && x + 4 <= msg.len() && le_word(msg, x) == pattern
}

/// The positions among the first `k` entries at which the pattern occurs,
/// in order.
pub open spec fn matches_below(msg: Seq<u8>, ind: Seq<u32>, pattern: u32, k: int) -> Seq<u32>
    decreases k,
{
    if k <= 0 {
        Seq::empty()
    } else if pattern_at(msg, ind[k - 1] as int, pattern) {
        matches_below(msg, ind, pattern, k - 1).push(ind[k - 1])
    } else {
        matches_below(msg, ind, pattern, k - 1)
    }
}

/// Number of 64-entry groups examined, counting from group `g` on: the
/// search stops once the matches fill `active_len` entries or the entries
/// run out.
pub open spec fn groups_from(msg: Seq<u8>, ind: Seq<u32>, pattern: u32, active_len: int, g: int) -> int
    decreases ind.len() - 64 * g,
{
    if g < 0 || matches_below(msg, ind, pattern, 64 * (g + 1)).len() >= active_len || 64 * (g + 1)
        >= ind.len() {
        g + 1
    } else {
        groups_from(msg, ind, pattern, active_len, g + 1)
    }
}

/// The matching positions reported by `eval_string_equal`.
pub open spec fn matched(msg: Seq<u8>, ind: Seq<u32>, pattern: u32, active_len: int) -> Seq<u32> {
    matches_below(msg, ind, pattern, 64 * groups_from(msg, ind, pattern, active_len, 0))
}

/// There are no more matches than entries examined.
pub proof fn lemma_matches_len(msg: Seq<u8>, ind: Seq<u32>, pattern: u32, k: int)
    requires
        k >= 0,
    ensures
        matches_below(msg, ind, pattern, k).len() <= k,
    decreases k,
{
    if k > 0 {
        lemma_matches_len(msg, ind, pattern, k - 1);
    }
}

/// Each position among the matches is an entry at which the pattern occurs.
pub proof fn lemma_matches_hold_pattern(msg: Seq<u8>, ind: Seq<u32>, pattern: u32, k: int)
    requires
        0 <= k <= ind.len(),
    ensures
        forall|j: int|
            0 <= j < matches_below(msg, ind, pattern, k).len() ==> {
                let x = #[trigger] matches_below(msg, ind, pattern, k)[j];
                &&& pattern_at(msg, x as int, pattern)
                &&& ind.subrange(0, k).contains(x)
            },
    decreases k,
{
    if k > 0 {
        lemma_matches_hold_pattern(msg, ind, pattern, k - 1);
        let prev = matches_below(msg, ind, pattern, k - 1);
        let cur = matches_below(msg, ind, pattern, k);
        assert forall|j: int| 0 <= j < cur.len() implies {
            let x = #[trigger] cur[j];
            &&& pattern_at(msg, x as int, pattern)
            &&& ind.subrange(0, k).contains(x)
        } by {
            if j < prev.len() {
                assert(cur[j] == prev[j]);
                let w = choose|w: int| 0 <= w < k - 1 && #[trigger] ind.subrange(0, k - 1)[w] == prev[j];
                assert(ind.subrange(0, k)[w] == prev[j]);
            } else {
                assert(ind.subrange(0, k)[k - 1] == cur[j]);
            }
        }
    }
}

/// Every position that `eval_string_equal` reports is an entry of the
/// index list at which the message holds the pattern.
pub proof fn lemma_reported_rows_match(msg: Seq<u8>, ind: Seq<u32>, pattern: u32, active_len: int)
    requires
        ind.len() >= 64,
        ind.len() % 64 == 0,
    ensures
        forall|j: int|
            0 <= j < matched(msg, ind, pattern, active_len).len() ==> {
                let x = #[trigger] matched(msg, ind, pattern, active_len)[j];
                &&& pattern_at(msg, x as int, pattern)
                &&& ind.contains(x)
            },
{
    lemma_groups_bound(msg, ind, pattern, active_len, 0);
    let k = 64 * groups_from(msg, ind, pattern, active_len, 0);
    lemma_matches_hold_pattern(msg, ind, pattern, k);
    let m = matched(msg, ind, pattern, active_len);
    assert forall|j: int| 0 <= j < m.len() implies {
        let x = #[trigger] m[j];
        &&& pattern_at(msg, x as int, pattern)
        &&& ind.contains(x)
    } by {
        let w = choose|w: int| 0 <= w < k && #[trigger] ind.subrange(0, k)[w] == m[j];
        assert(ind[w] == m[j]);
    }
}

/// The groups examined stay within the index list.
proof fn lemma_groups_bound(msg: Seq<u8>, ind: Seq<u32>, pattern: u32, active_len: int, g: int)
    requires
        0 <= g,
        64 * g < ind.len(),
        ind.len() % 64 == 0,
    ensures
        g + 1 <= groups_from(msg, ind, pattern, active_len, g) <= ind.len() / 64,
    decreases ind.len() - 64 * g,
{
    if !(matches_below(msg, ind, pattern, 64 * (g + 1)).len() >= active_len || 64 * (g + 1) >= ind.len()) {
        lemma_groups_bound(msg, ind, pattern, active_len, g + 1);
    } else {
        assert(g + 1 <= ind.len() / 64) by (nonlinear_arith)
            requires
                64 * g < ind.len(),
                ind.len() % 64 == 0,
        ;
    }
}

/// Whether the message holds, at `x`, the four bytes of `pattern`, least
/// significant first.
pub open spec fn holds_pattern(msg: Seq<u8>, x: u32, pattern: u32) -> bool {
    &&& x + 4 <= msg.len()
    &&& msg[x as int] == pattern % 256
    &&& msg[x + 1] == (pattern / 256) % 256
    &&& msg[x + 2] == (pattern / 65536) % 256
    &&& msg[x + 3] == pattern / 16777216
}

proof fn lemma_holds_pattern(msg: Seq<u8>, x: u32, pattern: u32)
    ensures
        holds_pattern(msg, x, pattern) == pattern_at(msg, x as int, pattern),
{
    if x + 4 <= msg.len() {
        let b0 = msg[x as int] as int;
        let b1 = msg[x + 1] as int;
        let b2 = msg[x + 2] as int;
        let b3 = msg[x + 3] as int;
        let p = pattern as int;
        assert((b0 + 256 * b1 + 65536 * b2 + 16777216 * b3 == p) <==> (b0 == p % 256 && b1 == (p / 256) % 256
            && b2 == (p / 65536) % 256 && b3 == p / 16777216)) by (nonlinear_arith)
            requires
                0 <= b0 < 256,
                0 <= b1 < 256,
                0 <= b2 < 256,
                0 <= b3 < 256,
                0 <= p < 0x1_0000_0000,
        ;
    }
}

/// The matches among the first `k` entries are those entries, in order,
/// at which the message holds the pattern.
proof fn lemma_matches_filter(msg: Seq<u8>, ind: Seq<u32>, pattern: u32, k: int)
    requires
        0 <= k <= ind.len(),
    ensures
        matches_below(msg, ind, pattern, k) == ind.take(k).filter(|x: u32| holds_pattern(msg, x, pattern)),
    decreases k,
{
    let pred = |x: u32| holds_pattern(msg, x, pattern);
    reveal_with_fuel(Seq::filter, 1);
    if k == 0 {
        assert(ind.take(0) =~= Seq::<u32>::empty());
    } else {
        lemma_matches_filter(msg, ind, pattern, k - 1);
        assert(ind.take(k).drop_last() =~= ind.take(k - 1));
        assert(ind.take(k).last() == ind[k - 1]);
        lemma_holds_pattern(msg, ind[k - 1], pattern);
    }
}

proof fn lemma_matches_len_monotone(msg: Seq<u8>, ind: Seq<u32>, pattern: u32, k1: int, k2: int)
    requires
        0 <= k1 <= k2,
    ensures
        matches_below(msg, ind, pattern, k1).len() <= matches_below(msg, ind, pattern, k2).len(),
    decreases k2 - k1,
{
    if k1 < k2 {
        lemma_matches_len_monotone(msg, ind, pattern, k1, k2 - 1);
    }
}

proof fn lemma_groups_all(msg: Seq<u8>, ind: Seq<u32>, pattern: u32, active_len: int, g: int)
    requires
        ind.len() % 64 == 0,
        0 <= g,
        64 * g < ind.len(),
        matches_below(msg, ind, pattern, ind.len() as int).len() < active_len,
    ensures
        groups_from(msg, ind, pattern, active_len, g) == ind.len() / 64,
    decreases ind.len() - 64 * g,
{
    let n = ind.len() as int;
    if 64 * (g + 1) < n {
        lemma_matches_len_monotone(msg, ind, pattern, 64 * (g + 1), n);
        lemma_groups_all(msg, ind, pattern, active_len, g + 1);
    } else {
        assert(g + 1 == n / 64) by (nonlinear_arith)
            requires
                64 * g < n,
                64 * (g + 1) >= n,
                n % 64 == 0,
        ;
    }
}

/// Every match is reported while the buffer has room: when fewer entries
/// match than `active_len`, `eval_string_equal` reports exactly the entries
/// at which the message holds the four bytes of the pattern, in their
/// order among the entries (and their number).
pub proof fn lemma_reports_every_match(msg: Seq<u8>, ind: Seq<u32>, pattern: u32, active_len: int)
    requires
        ind.len() >= 64,
        ind.len() % 64 == 0,
        ind.filter(|x: u32| holds_pattern(msg, x, pattern)).len() < active_len,
    ensures
        matched(msg, ind, pattern, active_len) == ind.filter(|x: u32| holds_pattern(msg, x, pattern)),
{
    let n = ind.len() as int;
    lemma_matches_filter(msg, ind, pattern, n);
    assert(ind.take(n) =~= ind);
    lemma_groups_all(msg, ind, pattern, active_len, 0);
    assert(64 * (n / 64) == n) by (nonlinear_arith)
        requires
            n % 64 == 0,
    ;
}

/// Every position reported holds the four bytes of the pattern.
pub proof fn lemma_reported_rows_hold_pattern(msg: Seq<u8>, ind: Seq<u32>, pattern: u32, active_len: int)
    requires
        ind.len() >= 64,
        ind.len() % 64 == 0,
    ensures
        forall|j: int|
            0 <= j < matched(msg, ind, pattern, active_len).len() ==> holds_pattern(
                msg,
                #[trigger] matched(msg, ind, pattern, active_len)[j],
                pattern,
            ),
{
    lemma_reported_rows_match(msg, ind, pattern, active_len);
    assert forall|j: int| 0 <= j < matched(msg, ind, pattern, active_len).len() implies holds_pattern(
        msg,
        #[trigger] matched(msg, ind, pattern, active_len)[j],
        pattern,
    ) by {
        lemma_holds_pattern(msg, matched(msg, ind, pattern, active_len)[j], pattern);
    }
}

/// Reads the little-endian word at `x`, when the message holds it.
fn word_matches(message: &[u8], x: u32, pattern: u32) -> (r: bool)
    ensures
        r == pattern_at(message@, x as int, pattern),
{
    let x = x as usize;
    if x < message.len() && message.len() - x >= 4 {
        let w: u32 = message[x] as u32 + 256 * (message[x + 1] as u32) + 65536 * (message[x + 2] as u32)
            + 16777216 * (message[x + 3] as u32);
        w == pattern
    } else {
        false
    }
}

/// Collects into `active`, in order, the positions from `indices` at which
/// the message holds the four bytes of `pattern` (little-endian). Positions
/// are examined in groups of 64, and the search stops after the group in
/// which the matches reach the length of `active`; matches beyond that
/// length are counted but not stored. Returns the number of matches.
pub fn eval_string_equal(message: &[u8], indices: &[u32], pattern: u32, active: &mut Vec<u32>) -> (entries: u64)
    requires
        indices.len() >= GROUP,
        indices.len() % GROUP == 0,
    ensures
        ({
            let found = matched(message@, indices@, pattern, old(active).len() as int);
            &&& entries == found.len()
            &&& final(active).len() == old(active).len()
            &&& forall|k: int|
                0 <= k < old(active).len() ==> #[trigger] final(active)@[k] == if k < found.len() {
                    found[k]
                } else {
                    old(active)@[k]
                }
        }),
{
    let ghost msg = message@;
    let ghost ind = indices@;
    let ghost old_act = active@;
    let n = indices.len();
    let cap = active.len();
    let mut count: usize = 0;
    let mut g: usize = 0;
    loop
        invariant
            msg == message@,
            ind == indices@,
            n == indices.len(),
            n >= 64,
            n % 64 == 0,
            cap == old_act.len(),
            old_act == old(active)@,
            active.len() == cap,
            64 * g < n,
            count == matches_below(msg, ind, pattern, 64 * g).len(),
            groups_from(msg, ind, pattern, cap as int, 0) == groups_from(msg, ind, pattern, cap as int, g as int),
            forall|k: int|
                0 <= k < cap ==> #[trigger] active@[k] == if k < count {
                    matches_below(msg, ind, pattern, 64 * g)[k]
                } else {
                    old_act[k]
                },
        decreases n - 64 * g,
    {
        let base = 64 * g;
        proof {
            lemma_matches_len(msg, ind, pattern, base as int);
        }
        let mut j: usize = 0;
        while j < 64
            invariant
                msg == message@,
                ind == indices@,
                n == indices.len(),
                base == 64 * g,
                base + 64 <= n,
                cap == old_act.len(),
                active.len() == cap,
                0 <= j <= 64,
                count == matches_below(msg, ind, pattern, base + j).len(),
                count <= base + j,
                forall|k: int|
                    0 <= k < cap ==> #[trigger] active@[k] == if k < count {
                        matches_below(msg, ind, pattern, base + j)[k]
                    } else {
                        old_act[k]
                    },
            decreases 64 - j,
        {
            let x = indices[base + j];
            let ghost before = matches_below(msg, ind, pattern, base + j);
            if word_matches(message, x, pattern) {
                if count < cap {
                    active.set(count, x);
                }
                count = count + 1;
            }
            j = j + 1;
        }
        if count >= cap || base + 64 >= n {
            proof {
                assert(groups_from(msg, ind, pattern, cap as int, g as int) == g + 1);
            }
            return count as u64;
        }
        g = g + 1;
    }
}

} // verus!
