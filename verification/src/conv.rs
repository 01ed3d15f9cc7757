use vstd::prelude::*;
use vstd::arithmetic::div_mod::{lemma_mul_mod_noop_left, lemma_add_mod_noop, lemma_fundamental_div_mod};
use vstd::arithmetic::power::pow;

verus! {

/// Number of lanes converted per call.
pub const LANES: usize = 8;

/// Whether position `p` of the message holds an ASCII decimal digit.
pub open spec fn is_digit_at(msg: Seq<u8>, p: int) -> bool {
    0 <= p < msg.len() && 48 <= msg[p] <= 57
}

/// Length of the run of digits that begins at `p`.
pub open spec fn digits_len(msg: Seq<u8>, p: int) -> nat
    decreases msg.len() - p,
{
    if is_digit_at(msg, p) {
        1 + digits_len(msg, p + 1)
    } else {
        0
    }
}

/// Decimal value of the `k` bytes at `p`, read as digits.
pub open spec fn decimal_value(msg: Seq<u8>, p: int, k: nat) -> int
    decreases k,
{
    if k == 0 {
        0
    } else {
        decimal_value(msg, p, (k - 1) as nat) * 10 + (msg[p + k - 1] - 48)
    }
}

/// Decimal value of the digit run at `p` (0 when there is none).
pub open spec fn atoi_value(msg: Seq<u8>, p: int) -> int {
    decimal_value(msg, p, digits_len(msg, p))
}

/// `x` reduced to a 64-bit two's-complement integer.
pub open spec fn wrap_i64(x: int) -> int {
    let r = x % 0x1_0000_0000_0000_0000;
    if r > i64::MAX {
        r - 0x1_0000_0000_0000_0000
    } else {
        r
    }
}

/// The value of a converted field: the digit run at the position,
/// reduced to 64 bits.
pub open spec fn converted(msg: Seq<u8>, p: int) -> int {
    wrap_i64(atoi_value(msg, p))
}

/// An `i64` congruent to `x` modulo `2^64` is `wrap_i64(x)`.
proof fn lemma_wrap_unique(y: int, x: int)
    requires
        i64::MIN <= y <= i64::MAX,
        y % 0x1_0000_0000_0000_0000 == x % 0x1_0000_0000_0000_0000,
    ensures
        y == wrap_i64(x),
{
    let m: int = 0x1_0000_0000_0000_0000;
    lemma_fundamental_div_mod(y, m);
    let q = y / m;
    assert(y == m * q + y % m);
    assert(0 <= y % m < m);
    if y >= 0 {
        assert(q == 0) by (nonlinear_arith)
            requires
                y == m * q + y % m,
                0 <= y % m < m,
                0 <= y < m / 2,
                m == 0x1_0000_0000_0000_0000,
        ;
    } else {
        assert(q == -1) by (nonlinear_arith)
            requires
                y == m * q + y % m,
                0 <= y % m < m,
                -m / 2 <= y < 0,
                m == 0x1_0000_0000_0000_0000,
        ;
    }
}

/// `wrap_i64` of `x` is an `i64` congruent to `x`.
proof fn lemma_wrap_congruent(x: int)
    ensures
        i64::MIN <= wrap_i64(x) <= i64::MAX,
        wrap_i64(x) % 0x1_0000_0000_0000_0000 == x % 0x1_0000_0000_0000_0000,
{
    let m: int = 0x1_0000_0000_0000_0000;
    let r = x % m;
    assert(0 <= r < m);
    lemma_add_mod_noop(r, -m, m);
    assert((r - m) % m == r % m) by {
        vstd::arithmetic::div_mod::lemma_mod_sub_multiples_vanish(r, m);
    }
    vstd::arithmetic::div_mod::lemma_mod_twice(x, m);
}

/// One step of the digit fold, with 64-bit wrapping arithmetic.
proof fn lemma_wrap_step(v: i64, x: int, d: int)
    requires
        v == wrap_i64(x),
        0 <= d <= 9,
    ensures
        v.wrapping_mul(10).wrapping_add(d as i64) == wrap_i64(x * 10 + d),
{
    let m: int = 0x1_0000_0000_0000_0000;
    lemma_wrap_congruent(x);
    let w = v.wrapping_mul(10);
    lemma_mul_mod_noop_left(v as int, 10, m);
    lemma_mul_mod_noop_left(x, 10, m);
    lemma_wrap_congruent(v * 10);
    assert(w as int == wrap_i64(v * 10));
    assert(w as int % m == (x * 10) % m);
    let r = w.wrapping_add(d as i64);
    assert(r as int % m == (w + d) % m) by {
        if w + d > i64::MAX {
            vstd::arithmetic::div_mod::lemma_mod_sub_multiples_vanish(w + d, m);
        }
    }
    lemma_add_mod_noop(w as int, d, m);
    lemma_add_mod_noop(x * 10, d, m);
    lemma_wrap_unique(r as int, x * 10 + d);
}

/// Digit runs have non-negative values.
proof fn lemma_decimal_nonneg(msg: Seq<u8>, p: int, k: nat)
    requires
        forall|j: int| 0 <= j < k ==> is_digit_at(msg, #[trigger] (p + j)),
    ensures
        decimal_value(msg, p, k) >= 0,
    decreases k,
{
    if k > 0 {
        lemma_decimal_nonneg(msg, p, (k - 1) as nat);
        assert(is_digit_at(msg, p + (k - 1)));
    }
}

proof fn lemma_digits_run(msg: Seq<u8>, p: int)
    ensures
        forall|j: int| 0 <= j < digits_len(msg, p) ==> is_digit_at(msg, #[trigger] (p + j)),
    decreases msg.len() - p,
{
    if is_digit_at(msg, p) {
        lemma_digits_run(msg, p + 1);
        assert forall|j: int| 0 <= j < digits_len(msg, p) implies is_digit_at(msg, #[trigger] (p + j)) by {
            if j > 0 {
                assert(is_digit_at(msg, (p + 1) + (j - 1)));
            }
        }
    }
}

/// The run read at `p` is made of the bytes `'0'..='9'` only, and it ends at
/// the first byte outside `'0'..='9'` (or at the end of the message).
pub proof fn lemma_digit_run_bytes(msg: Seq<u8>, p: int)
    ensures
        forall|j: int|
            0 <= j < digits_len(msg, p) ==> 0 <= #[trigger] (p + j) < msg.len() && 48 <= msg[p + j] <= 57,
        0 <= p + digits_len(msg, p) < msg.len() ==> !(48 <= msg[p + digits_len(msg, p)] <= 57),
    decreases msg.len() - p,
{
    if is_digit_at(msg, p) {
        lemma_digit_run_bytes(msg, p + 1);
        assert forall|j: int| 0 <= j < digits_len(msg, p) implies 0 <= #[trigger] (p + j) < msg.len() && 48
            <= msg[p + j] <= 57 by {
            if j > 0 {
                assert((p + 1) + (j - 1) == p + j);
            }
        }
        assert(p + digits_len(msg, p) == (p + 1) + digits_len(msg, p + 1));
    }
}

proof fn lemma_decimal_split(msg: Seq<u8>, p: int, k: nat)
    ensures
        decimal_value(msg, p, k + 1) == (msg[p] - 48) * pow(10, k) + decimal_value(msg, p + 1, k),
    decreases k,
{
    reveal(pow);
    if k == 0 {
        assert(decimal_value(msg, p, 0) == 0);
        assert(decimal_value(msg, p + 1, 0) == 0);
    } else {
        lemma_decimal_split(msg, p, (k - 1) as nat);
        let d = msg[p] - 48;
        let a = decimal_value(msg, p + 1, (k - 1) as nat);
        assert(decimal_value(msg, p, k + 1) == decimal_value(msg, p, k) * 10 + (msg[p + k] - 48));
        assert(decimal_value(msg, p + 1, k) == a * 10 + (msg[p + 1 + k - 1] - 48));
        assert(pow(10, k) == 10 * pow(10, (k - 1) as nat));
        assert((d * pow(10, (k - 1) as nat) + a) * 10 == d * (10 * pow(10, (k - 1) as nat)) + a * 10) by (nonlinear_arith);
    }
}

/// The value of a run is positional: a run that begins with digit `d` and
/// has `k` digits is worth `d * 10^(k-1)` plus the value of the run after
/// its first digit; a position without a digit is worth 0.
pub proof fn lemma_atoi_positional(msg: Seq<u8>, p: int)
    ensures
        !(0 <= p < msg.len() && 48 <= msg[p] <= 57) ==> atoi_value(msg, p) == 0,
        (0 <= p < msg.len() && 48 <= msg[p] <= 57) ==> {
            &&& digits_len(msg, p) == 1 + digits_len(msg, p + 1)
            &&& atoi_value(msg, p) == (msg[p] - 48) * pow(10, digits_len(msg, p + 1)) + atoi_value(msg, p + 1)
        },
{
    if 0 <= p < msg.len() && 48 <= msg[p] <= 57 {
        lemma_decimal_split(msg, p, digits_len(msg, p + 1));
    }
}

/// A field whose decimal value fits in an `i64` is converted exactly.
pub proof fn lemma_converted_exact(msg: Seq<u8>, p: int)
    requires
        atoi_value(msg, p) <= i64::MAX,
    ensures
        converted(msg, p) == atoi_value(msg, p),
{
    lemma_digits_run(msg, p);
    lemma_decimal_nonneg(msg, p, digits_len(msg, p));
    let v = atoi_value(msg, p);
    assert(v % 0x1_0000_0000_0000_0000 == v) by {
        vstd::arithmetic::div_mod::lemma_small_mod(v as nat, 0x1_0000_0000_0000_0000);
    }
}

/// Value of the digit run at byte `start`, with 64-bit wrapping arithmetic.
fn atoi_at(message: &[u8], start: u64) -> (r: i64)
    ensures
        r == converted(message@, start as int),
{
    let ghost msg = message@;
    let mut v: i64 = 0;
    let mut p: u64 = start;
    proof {
        lemma_wrap_congruent(0);
        lemma_wrap_unique(0, 0);
    }
    while p < message.len() as u64 && 48 <= message[p as usize] && message[p as usize] <= 57
        invariant
            msg == message@,
            start <= p,
            digits_len(msg, start as int) == (p - start) + digits_len(msg, p as int),
            v == wrap_i64(decimal_value(msg, start as int, (p - start) as nat)),
        decreases u64::MAX - p,
    {
        let d = message[p as usize] - 48;
        proof {
            lemma_wrap_step(v, decimal_value(msg, start as int, (p - start) as nat), d as int);
            assert(decimal_value(msg, start as int, (p + 1 - start) as nat) == decimal_value(
                msg,
                start as int,
                (p - start) as nat,
            ) * 10 + d);
        }
        v = v.wrapping_mul(10).wrapping_add(d as i64);
        p = p + 1;
    }
    v
}

/// Converts the decimal field at each of the first eight positions in
/// `indices` into `i64s`: the run of ASCII digits that begins there (none
/// gives 0), accumulated with 64-bit wrapping arithmetic. Signs and other
/// bytes end the run.
pub fn conv_atoi64(message: &[u8], indices: &[u64], i64s: &mut Vec<i64>)
    requires
        indices.len() >= LANES,
        old(i64s).len() >= LANES,
    ensures
        final(i64s).len() == old(i64s).len(),
        forall|i: int| 0 <= i < LANES ==> #[trigger] final(i64s)@[i] == converted(message@, indices@[i] as int),
        forall|i: int| LANES <= i < old(i64s).len() ==> #[trigger] final(i64s)@[i] == old(i64s)@[i],
{
    let mut i: usize = 0;
    while i < LANES
        invariant
            0 <= i <= LANES,
            indices.len() >= LANES,
            i64s.len() == old(i64s).len(),
            old(i64s).len() >= LANES,
            forall|k: int| 0 <= k < i ==> #[trigger] i64s@[k] == converted(message@, indices@[k] as int),
            forall|k: int| i <= k < old(i64s).len() ==> #[trigger] i64s@[k] == old(i64s)@[k],
        decreases LANES - i,
    {
        let r = atoi_at(message, indices[i]);
        i64s.set(i, r);
        i = i + 1;
    }
}

} // verus!
