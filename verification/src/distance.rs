//! A length-bounded edit distance over sequences of Unicode scalar values.
//!
//! The distance counts single-character insertions, deletions and
//! substitutions at cost 1 each, plus adjacent transpositions at cost 1,
//! where a transposition is only considered against the cell two steps back
//! on each side (the restricted, one-transposition-per-cell formulation).
//! The mathematical definition is the spec function [`osa_distance`]; the
//! executable [`edit_distance`] is proved to return exactly that value
//! whenever it does not exceed the caller's limit.

use vstd::prelude::*;

verus! {

/// The smaller of two naturals.
pub open spec fn min_nat(a: nat, b: nat) -> nat {
    if a <= b {
        a
    } else {
        b
    }
}

/// The larger of two naturals.
pub open spec fn max_nat(a: nat, b: nat) -> nat {
    if a >= b {
        a
    } else {
        b
    }
}

/// The restricted edit distance between two character sequences: the least
/// cost of turning `a` into `b` with unit-cost insertions, deletions,
/// substitutions and adjacent transpositions, where a transposition is only
/// offered when the two final characters of the prefixes are an exact swap,
/// against the prefixes two characters shorter on both sides.
///
/// The lemmas below prove symmetry, the zero law, and the two length bounds.
/// The restriction on transpositions keeps the distance short of a full
/// metric: the triangle inequality can fail, as it does between `"ca"`,
/// `"ac"` and `"abc"` (3 > 1 + 1).
pub open spec fn osa_distance(a: Seq<char>, b: Seq<char>) -> nat
    decreases a.len() + b.len(),
{
    if a.len() == 0 {
        b.len()
    } else if b.len() == 0 {
        a.len()
    } else {
        let del: nat = osa_distance(a.drop_last(), b) + 1;
        let ins: nat = osa_distance(a, b.drop_last()) + 1;
        let sub_cost: nat = if a.last() == b.last() {
            0
        } else {
            1
        };
        let sub: nat = osa_distance(a.drop_last(), b.drop_last()) + sub_cost;
        let base: nat = min_nat(del, min_nat(ins, sub));
        if a.len() >= 2 && b.len() >= 2 && a[a.len() - 1] == b[b.len() - 2] && a[a.len() - 2]
            == b[b.len() - 1] {
            min_nat(base, osa_distance(a.take(a.len() - 2), b.take(b.len() - 2)) + 1)
        } else {
            base
        }
    }
}

/// The distance never exceeds the length of the longer sequence.
pub proof fn lemma_distance_at_most_longer(a: Seq<char>, b: Seq<char>)
    ensures
        osa_distance(a, b) <= max_nat(a.len(), b.len()),
    decreases a.len() + b.len(),
{
    if a.len() == 0 || b.len() == 0 {
    } else {
        lemma_distance_at_most_longer(a.drop_last(), b.drop_last());
    }
}

/// The distance is at least the difference of the two lengths.
pub proof fn lemma_distance_at_least_length_difference(a: Seq<char>, b: Seq<char>)
    ensures
        osa_distance(a, b) + b.len() >= a.len(),
        osa_distance(a, b) + a.len() >= b.len(),
    decreases a.len() + b.len(),
{
    if a.len() == 0 || b.len() == 0 {
    } else {
        lemma_distance_at_least_length_difference(a.drop_last(), b);
        lemma_distance_at_least_length_difference(a, b.drop_last());
        lemma_distance_at_least_length_difference(a.drop_last(), b.drop_last());
        if a.len() >= 2 && b.len() >= 2 && a[a.len() - 1] == b[b.len() - 2] && a[a.len() - 2]
            == b[b.len() - 1] {
            lemma_distance_at_least_length_difference(
                a.take(a.len() - 2),
                b.take(b.len() - 2),
            );
        }
    }
}

/// The distance is symmetric in its two arguments.
pub proof fn lemma_distance_symmetric(a: Seq<char>, b: Seq<char>)
    ensures
        osa_distance(a, b) == osa_distance(b, a),
    decreases a.len() + b.len(),
{
    if a.len() == 0 || b.len() == 0 {
    } else {
        lemma_distance_symmetric(a.drop_last(), b);
        lemma_distance_symmetric(a, b.drop_last());
        lemma_distance_symmetric(a.drop_last(), b.drop_last());
        if a.len() >= 2 && b.len() >= 2 && a[a.len() - 1] == b[b.len() - 2] && a[a.len() - 2]
            == b[b.len() - 1] {
            lemma_distance_symmetric(a.take(a.len() - 2), b.take(b.len() - 2));
        }
    }
}

/// The distance from a sequence to itself is zero.
pub proof fn lemma_distance_self(a: Seq<char>)
    ensures
        osa_distance(a, a) == 0,
    decreases a.len(),
{
    if a.len() == 0 {
    } else {
        lemma_distance_self(a.drop_last());
    }
}

/// A distance of zero forces the two sequences to be equal.
proof fn lemma_distance_zero_implies_equal(a: Seq<char>, b: Seq<char>)
    requires
        osa_distance(a, b) == 0,
    ensures
        a == b,
    decreases a.len() + b.len(),
{
    if a.len() == 0 {
        assert(a =~= b);
    } else if b.len() == 0 {
        assert(a =~= b);
    } else {
        assert(a.last() == b.last());
        lemma_distance_zero_implies_equal(a.drop_last(), b.drop_last());
        assert forall|i: int| 0 <= i < a.len() implies a[i] == b[i] by {
            if i < a.len() - 1 {
                assert(a[i] == a.drop_last()[i]);
                assert(b[i] == b.drop_last()[i]);
            }
        }
        assert(a =~= b);
    }
}

/// The distance is zero exactly when the two sequences are equal; between
/// distinct sequences it is strictly positive.
pub proof fn lemma_distance_zero_iff_equal(a: Seq<char>, b: Seq<char>)
    ensures
        osa_distance(a, b) == 0 <==> a == b,
{
    if osa_distance(a, b) == 0 {
        lemma_distance_zero_implies_equal(a, b);
    }
    if a == b {
        lemma_distance_self(a);
    }
}

/// Dropping the final character of the first sequence changes the distance
/// by at most one.
proof fn lemma_drop_last_left(a: Seq<char>, b: Seq<char>)
    requires
        a.len() >= 1,
    ensures
        osa_distance(a.drop_last(), b) <= osa_distance(a, b) + 1,
    decreases a.len() + b.len(),
{
    if b.len() == 0 {
    } else {
        let d = osa_distance(a, b);
        let del: nat = osa_distance(a.drop_last(), b) + 1;
        let ins: nat = osa_distance(a, b.drop_last()) + 1;
        let sub_cost: nat = if a.last() == b.last() {
            0
        } else {
            1
        };
        let sub: nat = osa_distance(a.drop_last(), b.drop_last()) + sub_cost;
        if d == del && del <= ins && del <= sub {
            // deletion already names the goal
            assert(osa_distance(a.drop_last(), b) == d - 1);
        } else if d == ins {
            if a.len() == 1 {
                lemma_distance_at_least_length_difference(a, b.drop_last());
                assert(osa_distance(a.drop_last(), b) == b.len());
            } else {
                lemma_drop_last_left(a, b.drop_last());
                assert(osa_distance(a.drop_last(), b) <= osa_distance(
                    a.drop_last(),
                    b.drop_last(),
                ) + 1);
            }
        } else if d == sub {
            if a.len() == 1 {
                assert(osa_distance(a.drop_last(), b) == b.len());
                assert(osa_distance(a.drop_last(), b.drop_last()) == b.len() - 1);
            } else {
                assert(osa_distance(a.drop_last(), b) <= osa_distance(
                    a.drop_last(),
                    b.drop_last(),
                ) + 1);
            }
        } else {
            // the transposition names the cell two back on both sides
            let ta = a.take(a.len() - 2);
            let tb = b.take(b.len() - 2);
            assert(d == osa_distance(ta, tb) + 1);
            let a1 = a.drop_last();
            let b1 = b.drop_last();
            assert(osa_distance(a1, b) <= osa_distance(a1, b1) + 1);
            assert(a1.drop_last() =~= ta);
            assert(b1.drop_last() =~= tb);
            assert(osa_distance(a1, b1) <= osa_distance(ta, tb) + 1);
        }
    }
}

/// Dropping the final character of the second sequence changes the distance
/// by at most one.
proof fn lemma_drop_last_right(a: Seq<char>, b: Seq<char>)
    requires
        b.len() >= 1,
    ensures
        osa_distance(a, b.drop_last()) <= osa_distance(a, b) + 1,
{
    lemma_distance_symmetric(a, b);
    lemma_distance_symmetric(a, b.drop_last());
    lemma_drop_last_left(b, a);
}

/// A shared final character can be stripped without changing the distance.
proof fn lemma_strip_last(a: Seq<char>, b: Seq<char>)
    requires
        a.len() >= 1,
        b.len() >= 1,
        a.last() == b.last(),
    ensures
        osa_distance(a, b) == osa_distance(a.drop_last(), b.drop_last()),
{
    let d = osa_distance(a, b);
    let a1 = a.drop_last();
    let b1 = b.drop_last();
    let del: nat = osa_distance(a1, b) + 1;
    let ins: nat = osa_distance(a, b1) + 1;
    let sub: nat = osa_distance(a1, b1);
    assert(d <= sub);
    if d == del && del <= ins && del <= sub {
        lemma_drop_last_right(a1, b);
        assert(sub <= d);
    } else if d == ins && ins <= sub {
        lemma_drop_last_left(a, b1);
        assert(sub <= d);
    } else if d == sub {
    } else {
        // transposition: with equal final characters all four involved
        // characters coincide, so the stripped pair still ends alike
        let ta = a.take(a.len() - 2);
        let tb = b.take(b.len() - 2);
        assert(d == osa_distance(ta, tb) + 1);
        assert(a1.len() >= 1 && b1.len() >= 1);
        assert(a1.last() == b1.last());
        assert(a1.drop_last() =~= ta);
        assert(b1.drop_last() =~= tb);
        assert(sub <= osa_distance(ta, tb));
        assert(sub <= d);
    }
}

/// Distance from a single character to a sequence that starts with it.
proof fn lemma_singleton_left(c: char, b: Seq<char>)
    requires
        b.len() >= 1,
        b[0] == c,
    ensures
        osa_distance(seq![c], b) == b.len() - 1,
    decreases b.len(),
{
    let a = seq![c];
    if b.len() == 1 {
        assert(b =~= a);
        lemma_distance_self(a);
    } else {
        let b1 = b.drop_last();
        lemma_singleton_left(c, b1);
        assert(a.drop_last() =~= Seq::<char>::empty());
        assert(osa_distance(a.drop_last(), b) == b.len());
        assert(osa_distance(a.drop_last(), b1) == b.len() - 1);
        assert(osa_distance(a, b) == b.len() - 1);
    }
}

/// A shared first character can be stripped without changing the distance.
proof fn lemma_strip_first(a: Seq<char>, b: Seq<char>)
    requires
        a.len() >= 1,
        b.len() >= 1,
        a[0] == b[0],
    ensures
        osa_distance(a, b) == osa_distance(a.drop_first(), b.drop_first()),
    decreases a.len() + b.len(),
{
    let n = a.len();
    let m = b.len();
    if n == 1 {
        assert(a =~= seq![a[0]]);
        lemma_singleton_left(a[0], b);
        assert(a.drop_first() =~= Seq::<char>::empty());
        assert(b.drop_first().len() == m - 1);
    } else if m == 1 {
        lemma_distance_symmetric(a, b);
        lemma_distance_symmetric(a.drop_first(), b.drop_first());
        assert(b =~= seq![b[0]]);
        lemma_singleton_left(b[0], a);
        assert(b.drop_first() =~= Seq::<char>::empty());
    } else {
        let sa = a.drop_first();
        let sb = b.drop_first();
        lemma_strip_first(a.drop_last(), b);
        lemma_strip_first(a, b.drop_last());
        lemma_strip_first(a.drop_last(), b.drop_last());
        assert(a.drop_last().drop_first() =~= sa.drop_last());
        assert(b.drop_last().drop_first() =~= sb.drop_last());
        assert(a.last() == sa.last());
        assert(b.last() == sb.last());
        let del: nat = osa_distance(sa.drop_last(), sb) + 1;
        let ins: nat = osa_distance(sa, sb.drop_last()) + 1;
        let sub_cost: nat = if sa.last() == sb.last() {
            0
        } else {
            1
        };
        let sub: nat = osa_distance(sa.drop_last(), sb.drop_last()) + sub_cost;
        let base: nat = min_nat(del, min_nat(ins, sub));
        let trans_on = n >= 2 && m >= 2 && a[n - 1] == b[m - 2] && a[n - 2] == b[m - 1];
        if trans_on {
            if n >= 3 && m >= 3 {
                lemma_strip_first(a.take(n - 2), b.take(m - 2));
                assert(a.take(n - 2).drop_first() =~= sa.take(n - 3));
                assert(b.take(m - 2).drop_first() =~= sb.take(m - 3));
                assert(sa.len() >= 2 && sb.len() >= 2);
                assert(sa[sa.len() - 1] == b[m - 2] && sa[sa.len() - 2] == sb[sb.len() - 1]);
                assert(osa_distance(a, b) == osa_distance(sa, sb));
            } else {
                // too short for a transposition after stripping: the extra
                // option cannot beat the remaining three
                lemma_distance_at_most_longer(sa, sb);
                if n == 2 {
                    assert(a.take(n - 2) =~= Seq::<char>::empty());
                    assert(osa_distance(a.take(n - 2), b.take(m - 2)) == m - 2);
                    assert(osa_distance(sa, sb) <= max_nat(sa.len(), sb.len()));
                    assert(osa_distance(sa, sb) <= osa_distance(a.take(n - 2), b.take(m - 2)) + 1);
                } else {
                    assert(m == 2);
                    assert(b.take(m - 2) =~= Seq::<char>::empty());
                    assert(osa_distance(a.take(n - 2), b.take(m - 2)) == n - 2);
                    assert(osa_distance(sa, sb) <= osa_distance(a.take(n - 2), b.take(m - 2)) + 1);
                }
                assert(osa_distance(sa, sb) == base);
                assert(osa_distance(a, b) == min_nat(
                    base,
                    osa_distance(a.take(n - 2), b.take(m - 2)) + 1,
                ));
                assert(osa_distance(a, b) == osa_distance(sa, sb));
            }
        } else {
            assert(osa_distance(sa, sb) == base);
            assert(osa_distance(a, b) == osa_distance(sa, sb));
        }
    }
}

/// A shared prefix of any length can be stripped from both sequences.
proof fn lemma_strip_prefix(a: Seq<char>, b: Seq<char>, p: int)
    requires
        0 <= p <= a.len(),
        p <= b.len(),
        forall|k: int| 0 <= k < p ==> a[k] == b[k],
    ensures
        osa_distance(a, b) == osa_distance(a.skip(p), b.skip(p)),
    decreases p,
{
    if p == 0 {
        assert(a.skip(0) =~= a);
        assert(b.skip(0) =~= b);
    } else {
        lemma_strip_first(a, b);
        assert(a.drop_first() =~= a.skip(1));
        assert(b.drop_first() =~= b.skip(1));
        lemma_strip_prefix(a.skip(1), b.skip(1), p - 1);
        assert(a.skip(1).skip(p - 1) =~= a.skip(p));
        assert(b.skip(1).skip(p - 1) =~= b.skip(p));
    }
}

/// A shared suffix of any length can be stripped from both sequences.
proof fn lemma_strip_suffix(a: Seq<char>, b: Seq<char>, q: int)
    requires
        0 <= q <= a.len(),
        q <= b.len(),
        forall|k: int| 0 <= k < q ==> #[trigger] a[a.len() - 1 - k] == b[b.len() - 1 - k],
    ensures
        osa_distance(a, b) == osa_distance(a.take(a.len() - q), b.take(b.len() - q)),
    decreases q,
{
    if q == 0 {
        assert(a.take(a.len() as int) =~= a);
        assert(b.take(b.len() as int) =~= b);
    } else {
        assert(a[a.len() - 1 - 0] == b[b.len() - 1 - 0]);
        lemma_strip_last(a, b);
        assert(a.drop_last() =~= a.take(a.len() - 1));
        assert(b.drop_last() =~= b.take(b.len() - 1));
        assert forall|k: int| 0 <= k < q - 1 implies #[trigger] a.drop_last()[a.drop_last().len()
            - 1 - k] == b.drop_last()[b.drop_last().len() - 1 - k] by {
            assert(a[a.len() - 1 - (k + 1)] == b[b.len() - 1 - (k + 1)]);
        }
        lemma_strip_suffix(a.drop_last(), b.drop_last(), q - 1);
        assert(a.drop_last().take(a.len() - q) =~= a.take(a.len() - q));
        assert(b.drop_last().take(b.len() - q) =~= b.take(b.len() - q));
    }
}

/// The distance between prefixes obeys the dynamic-programming recurrence
/// that [`edit_distance`] evaluates cell by cell.
proof fn lemma_cell_recurrence(a: Seq<char>, b: Seq<char>, i: int, j: int)
    requires
        1 <= i <= a.len(),
        1 <= j <= b.len(),
    ensures
        osa_distance(a.take(i), b.take(j)) == ({
            let del: nat = osa_distance(a.take(i - 1), b.take(j)) + 1;
            let ins: nat = osa_distance(a.take(i), b.take(j - 1)) + 1;
            let sub_cost: nat = if a[i - 1] == b[j - 1] {
                0
            } else {
                1
            };
            let sub: nat = osa_distance(a.take(i - 1), b.take(j - 1)) + sub_cost;
            let base: nat = min_nat(del, min_nat(ins, sub));
            if i >= 2 && j >= 2 && a[i - 1] == b[j - 2] && a[i - 2] == b[j - 1] {
                min_nat(base, osa_distance(a.take(i - 2), b.take(j - 2)) + 1)
            } else {
                base
            }
        }),
{
    let ai = a.take(i);
    let bj = b.take(j);
    assert(ai.drop_last() =~= a.take(i - 1));
    assert(bj.drop_last() =~= b.take(j - 1));
    assert(ai.last() == a[i - 1]);
    assert(bj.last() == b[j - 1]);
    if i >= 2 && j >= 2 {
        assert(ai.take(i - 2) =~= a.take(i - 2));
        assert(bj.take(j - 2) =~= b.take(j - 2));
        assert(ai[i - 2] == a[i - 2]);
        assert(bj[j - 2] == b[j - 2]);
    }
}

/// Relies on str::chars: a string slice's characters are exactly its sequence
/// of Unicode scalar values (the slice's view). A slice holds at most
/// isize::MAX bytes and every scalar value occupies at least one byte, so the
/// character count fits in half the usize range.
#[verifier::external_body]
pub(crate) fn chars_vec(s: &str) -> (r: Vec<char>)
    ensures
        r@ == s@,
        r@.len() <= usize::MAX / 2,
{
    s.chars().collect()
}

/// The smaller of two machine integers.
fn min_usize(x: usize, y: usize) -> (r: usize)
    ensures
        r == min_nat(x as nat, y as nat),
{
    if x <= y {
        x
    } else {
        y
    }
}

/// A vector of `len` zeros.
fn zero_row(len: usize) -> (r: Vec<usize>)
    ensures
        r@.len() == len,
{
    let mut v: Vec<usize> = Vec::new();
    let mut k: usize = 0;
    while k < len
        invariant
            v@.len() == k,
            k <= len,
        decreases len - k,
    {
        v.push(0);
        k = k + 1;
    }
    v
}

/// The vector `0, 1, ..., len - 1`.
fn ramp_row(len: usize) -> (r: Vec<usize>)
    ensures
        r@.len() == len,
        forall|k: int| 0 <= k < len ==> r@[k] == k,
{
    let mut v: Vec<usize> = Vec::new();
    let mut k: usize = 0;
    while k < len
        invariant
            v@.len() == k,
            k <= len,
            forall|t: int| 0 <= t < k ==> v@[t] == t,
        decreases len - k,
    {
        v.push(k);
        k = k + 1;
    }
    v
}

/// Finds the edit distance between two strings, counted over Unicode scalar
/// values.
///
/// Returns `None` exactly when the distance exceeds the limit, and the
/// distance itself otherwise.
#[verifier::rlimit(60)]
pub fn edit_distance(a: &str, b: &str, limit: usize) -> (r: Option<usize>)
    ensures
        osa_distance(a@, b@) <= limit ==> r == Some((osa_distance(a@, b@) as usize)),
        osa_distance(a@, b@) > limit ==> r is None,
{
    let av = chars_vec(a);
    let bv = chars_vec(b);
    // orient so that `x` is the longer sequence, bounding the rows by the
    // shorter one
    let (x, y): (Vec<char>, Vec<char>) = if av.len() < bv.len() {
        proof {
            lemma_distance_symmetric(av@, bv@);
        }
        (bv, av)
    } else {
        (av, bv)
    };
    assert(osa_distance(x@, y@) == osa_distance(a@, b@));
    let n = x.len();
    let m = y.len();
    let min_dist = n - m;
    // the length difference alone is a lower bound on the distance
    if min_dist > limit {
        proof {
            lemma_distance_at_least_length_difference(x@, y@);
        }
        return None;
    }
    // strip the longest common prefix
    let mut p: usize = 0;
    while p < m && x[p] == y[p]
        invariant
            p <= m <= n,
            n == x@.len(),
            m == y@.len(),
            forall|k: int| 0 <= k < p ==> x@[k] == y@[k],
        decreases m - p,
    {
        p = p + 1;
    }
    // strip the longest common suffix of what remains
    let mut q: usize = 0;
    while q < m - p && x[n - 1 - q] == y[m - 1 - q]
        invariant
            p <= m <= n,
            q <= m - p,
            n == x@.len(),
            m == y@.len(),
            forall|k: int| 0 <= k < q ==> #[trigger] x@[n - 1 - k] == y@[m - 1 - k],
        decreases m - p - q,
    {
        q = q + 1;
    }
    let ghost gxs = x@.subrange(p as int, n - q);
    let ghost gys = y@.subrange(p as int, m - q);
    proof {
        lemma_strip_prefix(x@, y@, p as int);
        let sx = x@.skip(p as int);
        let sy = y@.skip(p as int);
        assert forall|k: int| 0 <= k < q implies #[trigger] sx[sx.len() - 1 - k] == sy[sy.len() - 1
            - k] by {
            assert(x@[n - 1 - k] == y@[m - 1 - k]);
        }
        lemma_strip_suffix(sx, sy, q as int);
        assert(sx.take(sx.len() - q) =~= gxs);
        assert(sy.take(sy.len() - q) =~= gys);
    }
    assert(osa_distance(gxs, gys) == osa_distance(a@, b@));
    // if the shorter remainder is empty, only insertions of the length
    // difference are left
    if m - p - q == 0 {
        proof {
            assert(gys =~= Seq::<char>::empty());
            assert(osa_distance(gxs, gys) == gxs.len());
        }
        return Some(min_dist);
    }
    // copy the two windows
    let mut xs: Vec<char> = Vec::new();
    let mut i0: usize = p;
    while i0 < n - q
        invariant
            p <= i0 <= n - q,
            q <= n,
            n == x@.len(),
            xs@ == x@.subrange(p as int, i0 as int),
        decreases n - q - i0,
    {
        let c = x[i0];
        xs.push(c);
        proof {
            assert(x@.subrange(p as int, i0 as int).push(x@[i0 as int]) =~= x@.subrange(
                p as int,
                i0 + 1,
            ));
        }
        i0 = i0 + 1;
    }
    let mut ys: Vec<char> = Vec::new();
    let mut j0: usize = p;
    while j0 < m - q
        invariant
            p <= j0 <= m - q,
            q <= m,
            m == y@.len(),
            ys@ == y@.subrange(p as int, j0 as int),
        decreases m - q - j0,
    {
        let c = y[j0];
        ys.push(c);
        proof {
            assert(y@.subrange(p as int, j0 as int).push(y@[j0 as int]) =~= y@.subrange(
                p as int,
                j0 + 1,
            ));
        }
        j0 = j0 + 1;
    }
    assert(xs@ == gxs);
    assert(ys@ == gys);
    let nn = xs.len();
    let mm = ys.len();
    // three rolling rows over the shorter remainder
    let mut prev_prev = zero_row(mm + 1);
    let mut prev = ramp_row(mm + 1);
    let mut current = zero_row(mm + 1);
    proof {
        assert forall|j: int| 0 <= j <= mm implies osa_distance(xs@.take(0), ys@.take(j)) == j by {
            assert(xs@.take(0) =~= Seq::<char>::empty());
            assert(ys@.take(j).len() == j);
        }
    }
    let mut i: usize = 1;
    while i <= nn
        invariant
            1 <= i <= nn + 1,
            nn == xs@.len(),
            mm == ys@.len(),
            1 <= mm <= nn,
            nn <= usize::MAX / 2,
            prev@.len() == mm + 1,
            current@.len() == mm + 1,
            prev_prev@.len() == mm + 1,
            forall|j: int|
                0 <= j <= mm ==> prev@[j] == osa_distance(xs@.take(i - 1), ys@.take(j)),
            i >= 2 ==> forall|j: int|
                0 <= j <= mm ==> prev_prev@[j] == osa_distance(xs@.take(i - 2), ys@.take(j)),
        decreases nn + 1 - i,
    {
        current[0] = i;
        proof {
            assert(ys@.take(0) =~= Seq::<char>::empty());
            assert(osa_distance(xs@.take(i as int), ys@.take(0)) == xs@.take(i as int).len());
        }
        let mut j: usize = 1;
        while j <= mm
            invariant
                1 <= i <= nn,
                1 <= j <= mm + 1,
                nn == xs@.len(),
                mm == ys@.len(),
                1 <= mm <= nn,
                nn <= usize::MAX / 2,
                prev@.len() == mm + 1,
                current@.len() == mm + 1,
                prev_prev@.len() == mm + 1,
                forall|jj: int|
                    0 <= jj <= mm ==> prev@[jj] == osa_distance(xs@.take(i - 1), ys@.take(jj)),
                i >= 2 ==> forall|jj: int|
                    0 <= jj <= mm ==> prev_prev@[jj] == osa_distance(xs@.take(i - 2), ys@.take(jj)),
                forall|jj: int|
                    0 <= jj < j ==> current@[jj] == osa_distance(
                        xs@.take(i as int),
                        ys@.take(jj),
                    ),
            decreases mm + 1 - j,
        {
            let sub_cost: usize = if xs[i - 1] == ys[j - 1] {
                0
            } else {
                1
            };
            proof {
                lemma_cell_recurrence(xs@, ys@, i as int, j as int);
                lemma_distance_at_most_longer(xs@.take(i - 1), ys@.take(j as int));
                lemma_distance_at_most_longer(xs@.take(i as int), ys@.take(j - 1));
                lemma_distance_at_most_longer(xs@.take(i - 1), ys@.take(j - 1));
            }
            let mut val = min_usize(
                prev[j] + 1,
                min_usize(current[j - 1] + 1, prev[j - 1] + sub_cost),
            );
            if i > 1 && j > 1 && xs[i - 1] == ys[j - 2] && xs[i - 2] == ys[j - 1] {
                proof {
                    lemma_distance_at_most_longer(xs@.take(i - 2), ys@.take(j - 2));
                }
                val = min_usize(val, prev_prev[j - 2] + 1);
            }
            current[j] = val;
            assert(current@[j as int] == osa_distance(xs@.take(i as int), ys@.take(j as int)));
            j = j + 1;
        }
        // rotate the rows, reusing the buffers
        let tmp = prev_prev;
        prev_prev = prev;
        prev = current;
        current = tmp;
        i = i + 1;
    }
    let distance = prev[mm];
    proof {
        assert(xs@.take(nn as int) =~= xs@);
        assert(ys@.take(mm as int) =~= ys@);
    }
    if distance <= limit {
        Some(distance)
    } else {
        None
    }
}

/// The character-count difference of two sequences.
pub open spec fn length_gap(a: Seq<char>, b: Seq<char>) -> nat {
    if a.len() < b.len() {
        (b.len() - a.len()) as nat
    } else {
        (a.len() - b.len()) as nat
    }
}

/// Whether one sequence is less than half as long as the other.
pub open spec fn big_length_gap(a: Seq<char>, b: Seq<char>) -> bool {
    a.len() * 2 < b.len() || b.len() * 2 < a.len()
}

/// The substring-aware score: the edit distance discounted by the length
/// difference, so that an exact substring relation scores low — but never
/// zero — while drastically different lengths pay the full difference back.
pub open spec fn substring_score(a: Seq<char>, b: Seq<char>) -> nat {
    let gap = length_gap(a, b);
    let base = (osa_distance(a, b) - gap) as nat;
    if base == 0 && gap > 0 && !big_length_gap(a, b) {
        1
    } else if !big_length_gap(a, b) {
        base + (gap + 1) / 2
    } else {
        base + gap
    }
}

/// A score derived from [`edit_distance`] that separates "is a substring of"
/// from "is a near-identical whole word".
///
/// Returns `None` exactly when the score exceeds the limit, and the score
/// itself otherwise.
pub fn edit_distance_with_substrings(a: &str, b: &str, limit: usize) -> (r: Option<usize>)
    ensures
        substring_score(a@, b@) <= limit ==> r == Some((substring_score(a@, b@) as usize)),
        substring_score(a@, b@) > limit ==> r is None,
{
    let av = chars_vec(a);
    let bv = chars_vec(b);
    let n = av.len();
    let m = bv.len();
    proof {
        lemma_distance_at_least_length_difference(a@, b@);
        lemma_distance_at_most_longer(a@, b@);
    }
    // one string less than half the length of the other marks a big
    // difference in length
    let big_len_diff = n * 2 < m || m * 2 < n;
    let len_diff = if n < m {
        m - n
    } else {
        n - m
    };
    // the length difference is discounted below, so widen the inner budget
    // by it; the distance itself never exceeds the longer length, so the
    // saturated budget is no restriction at all
    let inner_limit = if limit > usize::MAX - len_diff {
        usize::MAX
    } else {
        limit + len_diff
    };
    let distance = match edit_distance(a, b, inner_limit) {
        Some(d) => d,
        None => {
            proof {
                assert(osa_distance(a@, b@) > inner_limit);
                assert(substring_score(a@, b@) > limit);
            }
            return None;
        },
    };
    // subtracting the length difference makes exact substring matches score 0
    let score = distance - len_diff;
    let score = if score == 0 && len_diff > 0 && !big_len_diff {
        // an exact substring match, but not a whole-word match
        1
    } else if !big_len_diff {
        // a moderate length difference: discount its cost
        score + (len_diff + 1) / 2
    } else {
        // a big length difference: pay the whole difference back
        score + len_diff
    };
    if score <= limit {
        Some(score)
    } else {
        None
    }
}

} // verus!
