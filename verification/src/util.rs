use byteorder::{LittleEndian, WriteBytesExt};
use vstd::prelude::*;
use crate::eval::le_word;

verus! {

/// The rows present in both lists, computed by the merge walk that
/// `index_and` performs: equal heads are kept and both advance, otherwise
/// the smaller head is dropped.
pub open spec fn merge_and(a: Seq<i32>, b: Seq<i32>) -> Seq<i32>
    decreases a.len() + b.len(),
{
    if a.len() == 0 || b.len() == 0 {
        Seq::empty()
    } else if a[0] == b[0] {
        seq![a[0]] + merge_and(a.drop_first(), b.drop_first())
    } else if a[0] < b[0] {
        merge_and(a.drop_first(), b)
    } else {
        merge_and(a, b.drop_first())
    }
}

/// Intersects two row-index lists by a single merge pass.
pub fn index_and(a: &Vec<i32>, b: &Vec<i32>) -> (res: Vec<i32>)
    ensures
        res@ == merge_and(a@, b@),
{
    let mut vec: Vec<i32> = Vec::new();
    let mut ai: usize = 0;
    let mut bi: usize = 0;
    assert(a@.skip(0) =~= a@);
    assert(b@.skip(0) =~= b@);
    assert(vec@ + merge_and(a@, b@) =~= merge_and(a@, b@));
    while ai < a.len() && bi < b.len()
        invariant
            ai <= a.len(),
            bi <= b.len(),
            vec@ + merge_and(a@.skip(ai as int), b@.skip(bi as int)) == merge_and(a@, b@),
        decreases a.len() - ai + b.len() - bi,
    {
        let ghost sa = a@.skip(ai as int);
        let ghost sb = b@.skip(bi as int);
        assert(sa.drop_first() =~= a@.skip(ai + 1));
        assert(sb.drop_first() =~= b@.skip(bi + 1));
        if a[ai] == b[bi] {
            vec.push(a[ai]);
            ai += 1;
            bi += 1;
        } else if a[ai] < b[bi] {
            ai += 1;
        } else {
            bi += 1;
        }
    }
    proof {
        assert(merge_and(a@.skip(ai as int), b@.skip(bi as int)) =~= Seq::<i32>::empty());
    }
    vec
}

/// The rows present in either list, computed by the merge walk that
/// `index_or` performs: equal heads are emitted once and both advance,
/// otherwise the smaller head is emitted; what remains of either list is
/// appended.
pub open spec fn merge_or(a: Seq<i32>, b: Seq<i32>) -> Seq<i32>
    decreases a.len() + b.len(),
{
    if a.len() == 0 {
        b
    } else if b.len() == 0 {
        a
    } else if a[0] == b[0] {
        seq![a[0]] + merge_or(a.drop_first(), b.drop_first())
    } else if a[0] < b[0] {
        seq![a[0]] + merge_or(a.drop_first(), b)
    } else {
        seq![b[0]] + merge_or(a, b.drop_first())
    }
}

/// Unites two row-index lists by a single merge pass.
pub fn index_or(a: &Vec<i32>, b: &Vec<i32>) -> (res: Vec<i32>)
    ensures
        res@ == merge_or(a@, b@),
{
    let mut vec: Vec<i32> = Vec::new();
    let mut ai: usize = 0;
    let mut bi: usize = 0;
    assert(a@.skip(0) =~= a@);
    assert(b@.skip(0) =~= b@);
    assert(vec@ + merge_or(a@, b@) =~= merge_or(a@, b@));
    while ai < a.len() && bi < b.len()
        invariant
            ai <= a.len(),
            bi <= b.len(),
            vec@ + merge_or(a@.skip(ai as int), b@.skip(bi as int)) == merge_or(a@, b@),
        decreases a.len() - ai + b.len() - bi,
    {
        let ghost sa = a@.skip(ai as int);
        let ghost sb = b@.skip(bi as int);
        assert(sa.drop_first() =~= a@.skip(ai + 1));
        assert(sb.drop_first() =~= b@.skip(bi + 1));
        let ghost before = vec@;
        if a[ai] == b[bi] {
            vec.push(a[ai]);
            ai += 1;
            bi += 1;
        } else if a[ai] < b[bi] {
            vec.push(a[ai]);
            ai += 1;
        } else {
            vec.push(b[bi]);
            bi += 1;
        }
        assert(vec@ + merge_or(a@.skip(ai as int), b@.skip(bi as int)) =~= before + merge_or(sa, sb));
    }
    while ai < a.len()
        invariant
            ai <= a.len(),
            bi <= b.len(),
            ai == a.len() || bi == b.len(),
            vec@ + merge_or(a@.skip(ai as int), b@.skip(bi as int)) == merge_or(a@, b@),
        decreases a.len() - ai,
    {
        let ghost sa = a@.skip(ai as int);
        let ghost before = vec@;
        assert(sa.drop_first() =~= a@.skip(ai + 1));
        assert(b@.skip(bi as int) =~= Seq::<i32>::empty());
        vec.push(a[ai]);
        ai += 1;
        assert(merge_or(sa, Seq::empty()) == sa);
        assert(merge_or(a@.skip(ai as int), Seq::empty()) == a@.skip(ai as int));
        assert(vec@ + merge_or(a@.skip(ai as int), b@.skip(bi as int)) =~= before + merge_or(sa, b@.skip(bi as int)));
    }
    while bi < b.len()
        invariant
            ai <= a.len(),
            bi <= b.len(),
            ai == a.len() || bi == b.len(),
            vec@ + merge_or(a@.skip(ai as int), b@.skip(bi as int)) == merge_or(a@, b@),
        decreases b.len() - bi,
    {
        let ghost sb = b@.skip(bi as int);
        let ghost before = vec@;
        assert(sb.drop_first() =~= b@.skip(bi + 1));
        assert(a@.skip(ai as int) =~= Seq::<i32>::empty());
        vec.push(b[bi]);
        bi += 1;
        assert(vec@ + merge_or(a@.skip(ai as int), b@.skip(bi as int)) =~= before + merge_or(a@.skip(ai as int), sb));
    }
    proof {
        assert(a@.skip(ai as int) =~= Seq::<i32>::empty());
        assert(b@.skip(bi as int) =~= Seq::<i32>::empty());
        assert(vec@ + Seq::<i32>::empty() =~= vec@);
    }
    vec
}

/// A list of row indices in strictly increasing order.
pub open spec fn strictly_sorted(s: Seq<i32>) -> bool {
    forall|i: int, j: int| 0 <= i < j < s.len() ==> s[i] < s[j]
}

/// Intersecting gives the same list in either order.
pub proof fn lemma_index_and_commutes(a: Seq<i32>, b: Seq<i32>)
    ensures
        merge_and(a, b) == merge_and(b, a),
    decreases a.len() + b.len(),
{
    if a.len() > 0 && b.len() > 0 {
        if a[0] == b[0] {
            lemma_index_and_commutes(a.drop_first(), b.drop_first());
        } else if a[0] < b[0] {
            lemma_index_and_commutes(a.drop_first(), b);
        } else {
            lemma_index_and_commutes(a, b.drop_first());
        }
    }
}

/// Uniting gives the same list in either order.
pub proof fn lemma_index_or_commutes(a: Seq<i32>, b: Seq<i32>)
    ensures
        merge_or(a, b) == merge_or(b, a),
    decreases a.len() + b.len(),
{
    if a.len() > 0 && b.len() > 0 {
        if a[0] == b[0] {
            lemma_index_or_commutes(a.drop_first(), b.drop_first());
        } else if a[0] < b[0] {
            lemma_index_or_commutes(a.drop_first(), b);
        } else {
            lemma_index_or_commutes(a, b.drop_first());
        }
    }
}

proof fn lemma_sorted_tail(s: Seq<i32>)
    requires
        strictly_sorted(s),
        s.len() > 0,
    ensures
        strictly_sorted(s.drop_first()),
        forall|x: i32| s.drop_first().contains(x) ==> s[0] < x,
        forall|x: i32| s.contains(x) <==> (x == s[0] || s.drop_first().contains(x)),
{
    let t = s.drop_first();
    assert forall|x: i32| t.contains(x) implies s[0] < x by {
        let k = choose|k: int| 0 <= k < t.len() && t[k] == x;
        assert(s[k + 1] == x);
    }
    assert forall|x: i32| s.contains(x) implies (x == s[0] || t.contains(x)) by {
        let k = choose|k: int| 0 <= k < s.len() && s[k] == x;
        if k > 0 {
            assert(t[k - 1] == x);
        }
    }
    assert forall|x: i32| (x == s[0] || t.contains(x)) implies s.contains(x) by {
        if x == s[0] {
            assert(s[0] == x);
        } else {
            let k = choose|k: int| 0 <= k < t.len() && t[k] == x;
            assert(s[k + 1] == x);
        }
    }
}

proof fn lemma_sorted_cons(h: i32, t: Seq<i32>)
    requires
        strictly_sorted(t),
        forall|x: i32| t.contains(x) ==> h < x,
    ensures
        strictly_sorted(seq![h] + t),
        forall|x: i32| (seq![h] + t).contains(x) <==> (x == h || t.contains(x)),
{
    let s = seq![h] + t;
    assert forall|i: int, j: int| 0 <= i < j < s.len() implies s[i] < s[j] by {
        assert(s[j] == t[j - 1]);
        assert(t.contains(t[j - 1]));
        if i > 0 {
            assert(s[i] == t[i - 1]);
        }
    }
    lemma_sorted_tail(s);
    assert(s.drop_first() =~= t);
}

/// On strictly increasing lists, `index_and` yields the strictly increasing
/// list of the rows present in both.
pub proof fn lemma_index_and_intersects(a: Seq<i32>, b: Seq<i32>)
    requires
        strictly_sorted(a),
        strictly_sorted(b),
    ensures
        strictly_sorted(merge_and(a, b)),
        forall|x: i32| #[trigger] merge_and(a, b).contains(x) <==> (a.contains(x) && b.contains(x)),
    decreases a.len() + b.len(),
{
    if a.len() == 0 || b.len() == 0 {
        assert(merge_and(a, b) =~= Seq::<i32>::empty());
        assert forall|x: i32| #[trigger] merge_and(a, b).contains(x) <==> (a.contains(x) && b.contains(x)) by {
            if a.contains(x) && b.contains(x) {
                let i = choose|i: int| 0 <= i < a.len() && a[i] == x;
                let j = choose|j: int| 0 <= j < b.len() && b[j] == x;
            }
        }
    } else {
        lemma_sorted_tail(a);
        lemma_sorted_tail(b);
        if a[0] == b[0] {
            lemma_index_and_intersects(a.drop_first(), b.drop_first());
            lemma_sorted_cons(a[0], merge_and(a.drop_first(), b.drop_first()));
        } else if a[0] < b[0] {
            lemma_index_and_intersects(a.drop_first(), b);
        } else {
            lemma_index_and_intersects(a, b.drop_first());
        }
        assert forall|x: i32| #[trigger] merge_and(a, b).contains(x) <==> (a.contains(x) && b.contains(x)) by {
            if a.contains(x) {
                assert(x == a[0] || a.drop_first().contains(x));
            }
            if b.contains(x) {
                assert(x == b[0] || b.drop_first().contains(x));
            }
            if a[0] == b[0] {
                let m = merge_and(a.drop_first(), b.drop_first());
                assert(m.contains(x) <==> (a.drop_first().contains(x) && b.drop_first().contains(x)));
                assert((seq![a[0]] + m).contains(x) <==> (x == a[0] || m.contains(x)));
            } else if a[0] < b[0] {
                let m = merge_and(a.drop_first(), b);
                assert(m.contains(x) <==> (a.drop_first().contains(x) && b.contains(x)));
            } else {
                let m = merge_and(a, b.drop_first());
                assert(m.contains(x) <==> (a.contains(x) && b.drop_first().contains(x)));
            }
        }
    }
}

/// On strictly increasing lists, `index_or` yields the strictly increasing
/// list of the rows present in either.
pub proof fn lemma_index_or_unites(a: Seq<i32>, b: Seq<i32>)
    requires
        strictly_sorted(a),
        strictly_sorted(b),
    ensures
        strictly_sorted(merge_or(a, b)),
        forall|x: i32| #[trigger] merge_or(a, b).contains(x) <==> (a.contains(x) || b.contains(x)),
    decreases a.len() + b.len(),
{
    if a.len() == 0 {
        assert forall|x: i32| #[trigger] merge_or(a, b).contains(x) <==> (a.contains(x) || b.contains(x)) by {
            if a.contains(x) {
                let i = choose|i: int| 0 <= i < a.len() && a[i] == x;
            }
        }
    } else if b.len() == 0 {
        assert forall|x: i32| #[trigger] merge_or(a, b).contains(x) <==> (a.contains(x) || b.contains(x)) by {
            if b.contains(x) {
                let i = choose|i: int| 0 <= i < b.len() && b[i] == x;
            }
        }
    } else {
        lemma_sorted_tail(a);
        lemma_sorted_tail(b);
        if a[0] == b[0] {
            lemma_index_or_unites(a.drop_first(), b.drop_first());
            lemma_sorted_cons(a[0], merge_or(a.drop_first(), b.drop_first()));
        } else if a[0] < b[0] {
            lemma_index_or_unites(a.drop_first(), b);
            lemma_sorted_cons(a[0], merge_or(a.drop_first(), b));
        } else {
            lemma_index_or_unites(a, b.drop_first());
            lemma_sorted_cons(b[0], merge_or(a, b.drop_first()));
        }
        assert forall|x: i32| #[trigger] merge_or(a, b).contains(x) <==> (a.contains(x) || b.contains(x)) by {
            if a.contains(x) {
                assert(x == a[0] || a.drop_first().contains(x));
            }
            if b.contains(x) {
                assert(x == b[0] || b.drop_first().contains(x));
            }
            if a[0] == b[0] {
                let m = merge_or(a.drop_first(), b.drop_first());
                assert(m.contains(x) <==> (a.drop_first().contains(x) || b.drop_first().contains(x)));
                assert((seq![a[0]] + m).contains(x) <==> (x == a[0] || m.contains(x)));
            } else if a[0] < b[0] {
                let m = merge_or(a.drop_first(), b);
                assert(m.contains(x) <==> (a.drop_first().contains(x) || b.contains(x)));
                assert((seq![a[0]] + m).contains(x) <==> (x == a[0] || m.contains(x)));
            } else {
                let m = merge_or(a, b.drop_first());
                assert(m.contains(x) <==> (a.contains(x) || b.drop_first().contains(x)));
                assert((seq![b[0]] + m).contains(x) <==> (x == b[0] || m.contains(x)));
            }
        }
    }
}

/// A list in nondecreasing order.
pub open spec fn nondecreasing(s: Seq<i32>) -> bool {
    forall|i: int, j: int| 0 <= i < j < s.len() ==> s[i] <= s[j]
}

/// Every row that `index_and` keeps comes from its second list.
proof fn lemma_and_from_second(a: Seq<i32>, b: Seq<i32>)
    ensures
        forall|x: i32| #[trigger] merge_and(a, b).contains(x) ==> b.contains(x),
    decreases a.len() + b.len(),
{
    if a.len() == 0 || b.len() == 0 {
        assert forall|x: i32| #[trigger] merge_and(a, b).contains(x) implies b.contains(x) by {
            assert(merge_and(a, b).len() == 0);
        }
    } else {
        if a[0] == b[0] {
            lemma_and_from_second(a.drop_first(), b.drop_first());
            let m = merge_and(a.drop_first(), b.drop_first());
            assert forall|x: i32| #[trigger] merge_and(a, b).contains(x) implies b.contains(x) by {
                assert((seq![a[0]] + m).contains(x) ==> x == a[0] || m.contains(x)) by {
                    if (seq![a[0]] + m).contains(x) {
                        let k = choose|k: int| 0 <= k < (seq![a[0]] + m).len() && (seq![a[0]] + m)[k] == x;
                        if k > 0 {
                            assert(m[k - 1] == x);
                        }
                    }
                }
                if m.contains(x) {
                    let k = choose|k: int| 0 <= k < b.drop_first().len() && b.drop_first()[k] == x;
                    assert(b[k + 1] == x);
                } else {
                    assert(b[0] == x);
                }
            }
        } else if a[0] < b[0] {
            lemma_and_from_second(a.drop_first(), b);
            assert forall|x: i32| #[trigger] merge_and(a, b).contains(x) implies b.contains(x) by {
                assert(merge_and(a, b) == merge_and(a.drop_first(), b));
            }
        } else {
            lemma_and_from_second(a, b.drop_first());
            assert forall|x: i32| #[trigger] merge_and(a, b).contains(x) implies b.contains(x) by {
                assert(merge_and(a, b) == merge_and(a, b.drop_first()));
                assert(merge_and(a, b.drop_first()).contains(x));
                assert(b.drop_first().contains(x));
                let k = choose|k: int| 0 <= k < b.drop_first().len() && b.drop_first()[k] == x;
                assert(b[k + 1] == x);
            }
        }
    }
}

/// Absorption: uniting a nondecreasing list with its intersection with
/// another nondecreasing list gives back the first list.
pub proof fn lemma_index_absorption(a: Seq<i32>, b: Seq<i32>)
    requires
        nondecreasing(a),
        nondecreasing(b),
    ensures
        merge_or(a, merge_and(a, b)) == a,
    decreases a.len() + b.len(),
{
    if a.len() == 0 {
        assert(merge_and(a, b) =~= Seq::<i32>::empty());
    } else if b.len() == 0 {
        assert(merge_and(a, b) =~= Seq::<i32>::empty());
    } else {
        let a1 = a.drop_first();
        let b1 = b.drop_first();
        assert(nondecreasing(a1));
        assert(nondecreasing(b1));
        if a[0] == b[0] {
            lemma_index_absorption(a1, b1);
            let z = merge_and(a1, b1);
            let y = seq![a[0]] + z;
            assert(y.drop_first() =~= z);
            assert(seq![a[0]] + a1 =~= a);
        } else if a[0] < b[0] {
            lemma_index_absorption(a1, b);
            let y = merge_and(a1, b);
            if y.len() > 0 {
                lemma_and_from_second(a1, b);
                assert(y.contains(y[0]));
                let k = choose|k: int| 0 <= k < b.len() && b[k] == y[0];
                assert(b[0] <= b[k]);
            }
            assert(seq![a[0]] + a1 =~= a);
        } else {
            lemma_index_absorption(a, b1);
        }
    }
}

/// How many times `x` occurs in `s`.
pub open spec fn count_of(s: Seq<i32>, x: i32) -> nat
    decreases s.len(),
{
    if s.len() == 0 {
        0
    } else {
        (if s[0] == x {
            1nat
        } else {
            0nat
        }) + count_of(s.drop_first(), x)
    }
}

proof fn lemma_count_cons(h: i32, t: Seq<i32>, x: i32)
    ensures
        count_of(seq![h] + t, x) == (if h == x {
            1nat
        } else {
            0nat
        }) + count_of(t, x),
{
    assert((seq![h] + t).drop_first() =~= t);
}

/// In a nondecreasing list nothing below the head occurs.
proof fn lemma_count_below_head(s: Seq<i32>, x: i32)
    requires
        nondecreasing(s),
        s.len() > 0,
        x < s[0],
    ensures
        count_of(s, x) == 0,
    decreases s.len(),
{
    let t = s.drop_first();
    if t.len() > 0 {
        assert(s[0] <= s[1]);
        assert(t[0] == s[1]);
        assert(nondecreasing(t));
        lemma_count_below_head(t, x);
    } else {
        assert(count_of(t, x) == 0);
    }
}

/// Every element of a list occurs in it.
proof fn lemma_count_at(s: Seq<i32>, k: int)
    requires
        0 <= k < s.len(),
    ensures
        count_of(s, s[k]) > 0,
    decreases k,
{
    if k > 0 {
        lemma_count_at(s.drop_first(), k - 1);
    }
}

/// A head no larger than anything that occurs in a nondecreasing tail
/// keeps the list nondecreasing.
proof fn lemma_nondecreasing_cons(h: i32, t: Seq<i32>)
    requires
        nondecreasing(t),
        forall|x: i32| #[trigger] count_of(t, x) > 0 ==> h <= x,
    ensures
        nondecreasing(seq![h] + t),
{
    let s = seq![h] + t;
    assert forall|i: int, j: int| 0 <= i < j < s.len() implies s[i] <= s[j] by {
        assert(s[j] == t[j - 1]);
        lemma_count_at(t, j - 1);
        if i > 0 {
            assert(s[i] == t[i - 1]);
        }
    }
}

/// On nondecreasing lists `index_and` keeps each row as often as it occurs
/// in both lists, in nondecreasing order.
pub proof fn lemma_index_and_counts(a: Seq<i32>, b: Seq<i32>)
    requires
        nondecreasing(a),
        nondecreasing(b),
    ensures
        nondecreasing(merge_and(a, b)),
        forall|x: i32| #[trigger] count_of(merge_and(a, b), x) == if count_of(a, x) <= count_of(b, x) {
            count_of(a, x)
        } else {
            count_of(b, x)
        },
    decreases a.len() + b.len(),
{
    let m = merge_and(a, b);
    if a.len() == 0 || b.len() == 0 {
        assert(m =~= Seq::<i32>::empty());
    } else {
        let a1 = a.drop_first();
        let b1 = b.drop_first();
        assert(nondecreasing(a1));
        assert(nondecreasing(b1));
        if a[0] == b[0] {
            lemma_index_and_counts(a1, b1);
            let z = merge_and(a1, b1);
            assert forall|x: i32| #[trigger] count_of(z, x) > 0 implies a[0] <= x by {
                if x < a[0] {
                    if a1.len() > 0 {
                        assert(a[0] <= a[1]);
                        lemma_count_below_head(a1, x);
                    }
                }
            }
            lemma_nondecreasing_cons(a[0], z);
            assert forall|x: i32| #[trigger] count_of(m, x) == if count_of(a, x) <= count_of(b, x) {
                count_of(a, x)
            } else {
                count_of(b, x)
            } by {
                lemma_count_cons(a[0], z, x);
            }
        } else if a[0] < b[0] {
            lemma_index_and_counts(a1, b);
            assert forall|x: i32| #[trigger] count_of(m, x) == if count_of(a, x) <= count_of(b, x) {
                count_of(a, x)
            } else {
                count_of(b, x)
            } by {
                if x == a[0] {
                    lemma_count_below_head(b, x);
                }
            }
        } else {
            lemma_index_and_counts(a, b1);
            assert forall|x: i32| #[trigger] count_of(m, x) == if count_of(a, x) <= count_of(b, x) {
                count_of(a, x)
            } else {
                count_of(b, x)
            } by {
                if x == b[0] {
                    lemma_count_below_head(a, x);
                }
            }
        }
    }
}

/// On nondecreasing lists `index_or` keeps each row as often as it occurs
/// in the list where it occurs more, in nondecreasing order.
pub proof fn lemma_index_or_counts(a: Seq<i32>, b: Seq<i32>)
    requires
        nondecreasing(a),
        nondecreasing(b),
    ensures
        nondecreasing(merge_or(a, b)),
        forall|x: i32| #[trigger] count_of(merge_or(a, b), x) == if count_of(a, x) >= count_of(b, x) {
            count_of(a, x)
        } else {
            count_of(b, x)
        },
    decreases a.len() + b.len(),
{
    let m = merge_or(a, b);
    if a.len() == 0 {
    } else if b.len() == 0 {
    } else {
        let a1 = a.drop_first();
        let b1 = b.drop_first();
        assert(nondecreasing(a1));
        assert(nondecreasing(b1));
        if a[0] == b[0] {
            lemma_index_or_counts(a1, b1);
            let z = merge_or(a1, b1);
            assert forall|x: i32| #[trigger] count_of(z, x) > 0 implies a[0] <= x by {
                if x < a[0] {
                    if a1.len() > 0 {
                        assert(a[0] <= a[1]);
                        lemma_count_below_head(a1, x);
                    }
                    if b1.len() > 0 {
                        assert(b[0] <= b[1]);
                        lemma_count_below_head(b1, x);
                    }
                }
            }
            lemma_nondecreasing_cons(a[0], z);
            assert forall|x: i32| #[trigger] count_of(m, x) == if count_of(a, x) >= count_of(b, x) {
                count_of(a, x)
            } else {
                count_of(b, x)
            } by {
                lemma_count_cons(a[0], z, x);
            }
        } else if a[0] < b[0] {
            lemma_index_or_counts(a1, b);
            let z = merge_or(a1, b);
            assert forall|x: i32| #[trigger] count_of(z, x) > 0 implies a[0] <= x by {
                if x < a[0] {
                    if a1.len() > 0 {
                        assert(a[0] <= a[1]);
                        lemma_count_below_head(a1, x);
                    }
                    lemma_count_below_head(b, x);
                }
            }
            lemma_nondecreasing_cons(a[0], z);
            assert forall|x: i32| #[trigger] count_of(m, x) == if count_of(a, x) >= count_of(b, x) {
                count_of(a, x)
            } else {
                count_of(b, x)
            } by {
                lemma_count_cons(a[0], z, x);
                if x == a[0] {
                    lemma_count_below_head(b, x);
                }
            }
        } else {
            lemma_index_or_counts(a, b1);
            let z = merge_or(a, b1);
            assert forall|x: i32| #[trigger] count_of(z, x) > 0 implies b[0] <= x by {
                if x < b[0] {
                    if b1.len() > 0 {
                        assert(b[0] <= b[1]);
                        lemma_count_below_head(b1, x);
                    }
                    lemma_count_below_head(a, x);
                }
            }
            lemma_nondecreasing_cons(b[0], z);
            assert forall|x: i32| #[trigger] count_of(m, x) == if count_of(a, x) >= count_of(b, x) {
                count_of(a, x)
            } else {
                count_of(b, x)
            } by {
                lemma_count_cons(b[0], z, x);
                if x == b[0] {
                    lemma_count_below_head(a, x);
                }
            }
        }
    }
}

/// Two nondecreasing lists in which every row occurs equally often are
/// equal.
pub proof fn lemma_nondecreasing_unique(x: Seq<i32>, y: Seq<i32>)
    requires
        nondecreasing(x),
        nondecreasing(y),
        forall|v: i32| #[trigger] count_of(x, v) == count_of(y, v),
    ensures
        x == y,
    decreases x.len() + y.len(),
{
    if x.len() == 0 || y.len() == 0 {
        if x.len() > 0 {
            lemma_count_at(x, 0);
            assert(count_of(y, x[0]) == 0);
        }
        if y.len() > 0 {
            lemma_count_at(y, 0);
            assert(count_of(x, y[0]) == 0);
        }
        assert(x =~= y);
    } else {
        lemma_count_at(x, 0);
        lemma_count_at(y, 0);
        if x[0] < y[0] {
            lemma_count_below_head(y, x[0]);
        }
        if y[0] < x[0] {
            lemma_count_below_head(x, y[0]);
        }
        assert(x[0] == y[0]);
        let x1 = x.drop_first();
        let y1 = y.drop_first();
        assert(nondecreasing(x1));
        assert(nondecreasing(y1));
        assert forall|v: i32| #[trigger] count_of(x1, v) == count_of(y1, v) by {
            assert(count_of(x, v) == count_of(y, v));
        }
        lemma_nondecreasing_unique(x1, y1);
        assert(x.len() == y.len());
        assert(x =~= y) by {
            assert forall|i: int| 0 <= i < x.len() implies x[i] == y[i] by {
                if i > 0 {
                    assert(x[i] == x1[i - 1]);
                    assert(y[i] == y1[i - 1]);
                }
            }
        }
    }
}

/// Uniting a list with itself gives the list back, for any list.
pub proof fn lemma_index_or_idempotent(a: Seq<i32>)
    ensures
        merge_or(a, a) == a,
    decreases a.len(),
{
    if a.len() > 0 {
        lemma_index_or_idempotent(a.drop_first());
        assert(seq![a[0]] + a.drop_first() =~= a);
    }
}

/// Uniting again with a list already united in changes nothing, on
/// nondecreasing lists.
pub proof fn lemma_index_or_reunite(a: Seq<i32>, b: Seq<i32>)
    requires
        nondecreasing(a),
        nondecreasing(b),
    ensures
        merge_or(merge_or(a, b), b) == merge_or(a, b),
{
    lemma_index_or_counts(a, b);
    lemma_index_or_counts(merge_or(a, b), b);
    lemma_nondecreasing_unique(merge_or(merge_or(a, b), b), merge_or(a, b));
}

/// Union is associative on nondecreasing lists.
pub proof fn lemma_index_or_associative(a: Seq<i32>, b: Seq<i32>, c: Seq<i32>)
    requires
        nondecreasing(a),
        nondecreasing(b),
        nondecreasing(c),
    ensures
        merge_or(merge_or(a, b), c) == merge_or(a, merge_or(b, c)),
{
    lemma_index_or_counts(a, b);
    lemma_index_or_counts(b, c);
    lemma_index_or_counts(merge_or(a, b), c);
    lemma_index_or_counts(a, merge_or(b, c));
    lemma_nondecreasing_unique(merge_or(merge_or(a, b), c), merge_or(a, merge_or(b, c)));
}

/// Intersection is associative on nondecreasing lists.
pub proof fn lemma_index_and_associative(a: Seq<i32>, b: Seq<i32>, c: Seq<i32>)
    requires
        nondecreasing(a),
        nondecreasing(b),
        nondecreasing(c),
    ensures
        merge_and(merge_and(a, b), c) == merge_and(a, merge_and(b, c)),
{
    lemma_index_and_counts(a, b);
    lemma_index_and_counts(b, c);
    lemma_index_and_counts(merge_and(a, b), c);
    lemma_index_and_counts(a, merge_and(b, c));
    lemma_nondecreasing_unique(merge_and(merge_and(a, b), c), merge_and(a, merge_and(b, c)));
}

/// Intersection distributes over union on nondecreasing lists.
pub proof fn lemma_index_and_distributes(a: Seq<i32>, b: Seq<i32>, c: Seq<i32>)
    requires
        nondecreasing(a),
        nondecreasing(b),
        nondecreasing(c),
    ensures
        merge_or(merge_and(a, b), merge_and(a, c)) == merge_and(a, merge_or(b, c)),
{
    lemma_index_and_counts(a, b);
    lemma_index_and_counts(a, c);
    lemma_index_or_counts(b, c);
    lemma_index_or_counts(merge_and(a, b), merge_and(a, c));
    lemma_index_and_counts(a, merge_or(b, c));
    lemma_nondecreasing_unique(merge_or(merge_and(a, b), merge_and(a, c)), merge_and(a, merge_or(b, c)));
}

/// `x` is `y` with some entries left out: its entries appear in `y` at
/// strictly increasing positions.
pub open spec fn is_subsequence(x: Seq<i32>, y: Seq<i32>) -> bool {
    exists|f: Seq<int>|
        {
            &&& f.len() == x.len()
            &&& forall|i: int| 0 <= i < x.len() ==> 0 <= #[trigger] f[i] < y.len() && y[f[i]] == x[i]
            &&& forall|i: int, j: int| 0 <= i < j < x.len() ==> #[trigger] f[i] < #[trigger] f[j]
        }
}

/// A strictly increasing list whose rows all occur in another strictly
/// increasing list is a subsequence of it.
proof fn lemma_sorted_subset_subsequence(x: Seq<i32>, y: Seq<i32>)
    requires
        strictly_sorted(x),
        strictly_sorted(y),
        forall|v: i32| x.contains(v) ==> y.contains(v),
    ensures
        is_subsequence(x, y),
{
    let f = Seq::new(x.len(), |i: int| choose|k: int| 0 <= k < y.len() && y[k] == x[i]);
    assert forall|i: int| 0 <= i < x.len() implies 0 <= #[trigger] f[i] < y.len() && y[f[i]] == x[i] by {
        assert(x.contains(x[i]));
        assert(y.contains(x[i]));
    }
    assert forall|i: int, j: int| 0 <= i < j < x.len() implies #[trigger] f[i] < #[trigger] f[j] by {
        assert(0 <= f[i] < y.len() && y[f[i]] == x[i]);
        assert(0 <= f[j] < y.len() && y[f[j]] == x[j]);
        assert(x[i] < x[j]);
        if f[j] < f[i] {
            assert(y[f[j]] < y[f[i]]);
        }
    }
    assert(f.len() == x.len());
    assert(is_subsequence(x, y));
}

/// Enlarging one list never removes a row from the intersection: on
/// strictly increasing lists, when every row of `b` is in `c`, every row of
/// `index_and(a, b)` is in `index_and(a, c)`, and the first is a subsequence
/// of the second.
pub proof fn lemma_index_and_monotone(a: Seq<i32>, b: Seq<i32>, c: Seq<i32>)
    requires
        strictly_sorted(a),
        strictly_sorted(b),
        strictly_sorted(c),
        forall|x: i32| b.contains(x) ==> c.contains(x),
    ensures
        strictly_sorted(merge_and(a, b)),
        strictly_sorted(merge_and(a, c)),
        forall|x: i32| merge_and(a, b).contains(x) ==> merge_and(a, c).contains(x),
        is_subsequence(merge_and(a, b), merge_and(a, c)),
{
    lemma_index_and_intersects(a, b);
    lemma_index_and_intersects(a, c);
    lemma_sorted_subset_subsequence(merge_and(a, b), merge_and(a, c));
}

/// The four bytes of `n`, least significant first.
pub open spec fn le_bytes(n: u32) -> Seq<u8> {
    seq![
        (n % 256) as u8,
        ((n / 256) % 256) as u8,
        ((n / 65536) % 256) as u8,
        (n / 16777216) as u8,
    ]
}

/// The little-endian encodings of the first `k` words, one after another.
pub open spec fn le_stream(data: Seq<u32>, k: int) -> Seq<u8>
    decreases k,
{
    if k <= 0 {
        Seq::empty()
    } else {
        le_stream(data, k - 1) + le_bytes(data[k - 1])
    }
}

/// Reading the four bytes of `n` back as a little-endian word gives `n`.
pub proof fn lemma_le_bytes_roundtrip(n: u32)
    ensures
        le_bytes(n).len() == 4,
        le_word(le_bytes(n), 0) == n,
{
    let b0 = n % 256;
    let b1 = (n / 256) % 256;
    let b2 = (n / 65536) % 256;
    let b3 = n / 16777216;
    assert(b3 < 256);
    assert(b0 + 256 * b1 + 65536 * b2 + 16777216 * b3 == n) by (nonlinear_arith)
        requires
            b0 == n % 256,
            b1 == (n / 256) % 256,
            b2 == (n / 65536) % 256,
            b3 == n / 16777216,
    ;
}

/// The encoding of `k` words is `4 * k` bytes, word `i` occupying bytes
/// `4 * i` to `4 * i + 3`.
pub proof fn lemma_le_stream_layout(data: Seq<u32>, k: int)
    requires
        0 <= k <= data.len(),
    ensures
        le_stream(data, k).len() == 4 * k,
        forall|i: int, j: int|
            0 <= i < k && 0 <= j < 4 ==> #[trigger] le_stream(data, k)[4 * i + j] == le_bytes(data[i])[j],
    decreases k,
{
    if k > 0 {
        lemma_le_stream_layout(data, k - 1);
        let prev = le_stream(data, k - 1);
        let cur = le_stream(data, k);
        assert forall|i: int, j: int| 0 <= i < k && 0 <= j < 4 implies #[trigger] cur[4 * i + j]
            == le_bytes(data[i])[j] by {
            if i < k - 1 {
                assert(cur[4 * i + j] == prev[4 * i + j]);
            }
        }
    }
}

/// Reading word `i` back from the encoding of the data gives `data[i]`.
pub proof fn lemma_encoding_reads_back(data: Seq<u32>, i: int)
    requires
        0 <= i < data.len(),
    ensures
        le_word(le_stream(data, data.len() as int), 4 * i) == data[i],
{
    lemma_le_stream_layout(data, data.len() as int);
    lemma_le_bytes_roundtrip(data[i]);
    let st = le_stream(data, data.len() as int);
    assert(st[4 * i + 0] == le_bytes(data[i])[0]);
    assert(st[4 * i + 1] == le_bytes(data[i])[1]);
    assert(st[4 * i + 2] == le_bytes(data[i])[2]);
    assert(st[4 * i + 3] == le_bytes(data[i])[3]);
}

/// Appends `n` to `buf` through byteorder's
/// `WriteBytesExt::write_u32::<LittleEndian>`. Its source writes
/// `n.to_le_bytes()` with `write_all`; on a `Vec<u8>` that appends the four
/// bytes and cannot fail, so the contract states the appended bytes.
#[verifier::external_body]
fn push_u32_le(buf: &mut Vec<u8>, n: u32)
    ensures
        final(buf)@ == old(buf)@ + le_bytes(n),
{
    let _ = buf.write_u32::<LittleEndian>(n);
}

/// Serialises index data as consecutive little-endian 32-bit words, the
/// format in which index vectors are written to files.
pub fn encode_u32_le(data: &Vec<u32>) -> (res: Vec<u8>)
    ensures
        res@ == le_stream(data@, data@.len() as int),
{
    let mut result: Vec<u8> = Vec::new();
    let mut i: usize = 0;
    while i < data.len()
        invariant
            i <= data.len(),
            result@ == le_stream(data@, i as int),
        decreases data.len() - i,
    {
        push_u32_le(&mut result, data[i]);
        i = i + 1;
    }
    result
}

} // verus!
