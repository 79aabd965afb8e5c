//! Spec-level model of the candidate set: which target columns survive a
//! feedback round, how many of them fall into each feedback-code bucket, and
//! the information score a histogram of buckets yields.

use vstd::prelude::*;
use crate::entropy::log2_fixed_spec;
use crate::entropy::lemma_log2_fixed_bounds;
use vstd::arithmetic::mul::lemma_mul_strict_upper_bound;
use vstd::arithmetic::mul::lemma_mul_nonnegative;

verus! {

/// The matrix entry for guess `g` against target column `t`, in a row-major
/// matrix of row length `w`.
pub open spec fn matrix_code(m: Seq<u8>, w: int, g: int, t: int) -> u8 {
    m[g + t * w]
}

/// The target columns of `ts` whose matrix entry for guess `g` equals `code`:
/// the candidates that survive observing `code` for that guess.
pub open spec fn filter_code(ts: Seq<u16>, m: Seq<u8>, w: int, g: int, code: u8) -> Seq<u16>
    decreases ts.len(),
{
    if ts.len() == 0 {
        Seq::empty()
    } else {
        let pre = filter_code(ts.drop_last(), m, w, g, code);
        if matrix_code(m, w, g, ts.last() as int) == code {
            pre.push(ts.last())
        } else {
            pre
        }
    }
}

/// How many candidates of `ts` fall into the bucket of feedback code `code`
/// for guess `g`.
pub open spec fn count_code(ts: Seq<u16>, m: Seq<u8>, w: int, g: int, code: u8) -> int {
    filter_code(ts, m, w, g, code).len() as int
}

/// Narrowing never grows the candidate set.
pub proof fn lemma_filter_code_len(ts: Seq<u16>, m: Seq<u8>, w: int, g: int, code: u8)
    ensures
        0 <= filter_code(ts, m, w, g, code).len() <= ts.len(),
    decreases ts.len(),
{
    if ts.len() > 0 {
        lemma_filter_code_len(ts.drop_last(), m, w, g, code);
    }
}

/// A candidate survives narrowing if and only if it was a candidate and its
/// matrix entry for the guess equals the observed code.
pub proof fn lemma_filter_code_membership(ts: Seq<u16>, m: Seq<u8>, w: int, g: int, code: u8, a: u16)
    ensures
        filter_code(ts, m, w, g, code).contains(a) <==> (ts.contains(a) && matrix_code(
            m,
            w,
            g,
            a as int,
        ) == code),
    decreases ts.len(),
{
    if ts.len() > 0 {
        lemma_filter_code_membership(ts.drop_last(), m, w, g, code, a);
        assert(ts.contains(a) <==> (ts.drop_last().contains(a) || ts.last() == a)) by {
            if ts.contains(a) {
                let i = choose|i: int| 0 <= i < ts.len() && ts[i] == a;
                if i < ts.len() - 1 {
                    assert(ts.drop_last()[i] == a);
                }
            }
            if ts.drop_last().contains(a) {
                let i = choose|i: int| 0 <= i < ts.drop_last().len() && ts.drop_last()[i] == a;
                assert(ts[i] == a);
            }
        }
        let pre = filter_code(ts.drop_last(), m, w, g, code);
        if matrix_code(m, w, g, ts.last() as int) == code {
            assert(pre.push(ts.last()).contains(a) <==> (pre.contains(a) || ts.last() == a)) by {
                if pre.push(ts.last()).contains(a) {
                    let i = choose|i: int|
                        0 <= i < pre.push(ts.last()).len() && pre.push(ts.last())[i] == a;
                    if i < pre.len() {
                        assert(pre[i] == a);
                    }
                }
                if pre.contains(a) {
                    let i = choose|i: int| 0 <= i < pre.len() && pre[i] == a;
                    assert(pre.push(ts.last())[i] == a);
                }
                assert(pre.push(ts.last())[pre.len() as int] == ts.last());
            }
        }
    }
}

/// If some candidate's matrix entry differs from the observed code, narrowing
/// strictly shrinks the candidate set.
pub proof fn lemma_filter_code_shrinks(ts: Seq<u16>, m: Seq<u8>, w: int, g: int, code: u8, t: u16)
    requires
        ts.contains(t),
        matrix_code(m, w, g, t as int) != code,
    ensures
        filter_code(ts, m, w, g, code).len() < ts.len(),
    decreases ts.len(),
{
    let i = choose|i: int| 0 <= i < ts.len() && ts[i] == t;
    lemma_filter_code_len(ts.drop_last(), m, w, g, code);
    if ts.last() == t {
        // the last candidate is dropped
    } else {
        assert(ts.drop_last()[i] == t);
        lemma_filter_code_shrinks(ts.drop_last(), m, w, g, code, t);
    }
}

/// Narrowing keeps the candidate columns in their original strictly
/// increasing order.
pub proof fn lemma_filter_code_sorted(ts: Seq<u16>, m: Seq<u8>, w: int, g: int, code: u8)
    requires
        forall|i: int, j: int| 0 <= i < j < ts.len() ==> ts[i] < ts[j],
    ensures
        forall|i: int, j: int|
            0 <= i < j < filter_code(ts, m, w, g, code).len() ==> filter_code(ts, m, w, g, code)[i]
                < filter_code(ts, m, w, g, code)[j],
    decreases ts.len(),
{
    if ts.len() > 0 {
        let d = ts.drop_last();
        assert(forall|i: int, j: int| 0 <= i < j < d.len() ==> d[i] < d[j]);
        lemma_filter_code_sorted(d, m, w, g, code);
        let pre = filter_code(d, m, w, g, code);
        if matrix_code(m, w, g, ts.last() as int) == code {
            assert forall|i: int| 0 <= i < pre.len() implies pre[i] < ts.last() by {
                lemma_filter_code_membership(d, m, w, g, code, pre[i]);
                let j = choose|j: int| 0 <= j < d.len() && d[j] == pre[i];
                assert(ts[j] == pre[i]);
                assert(ts[j] < ts[ts.len() - 1]);
            }
        }
    }
}

/// Every surviving candidate column stays below the original bound.
pub proof fn lemma_filter_code_bounded(ts: Seq<u16>, m: Seq<u8>, w: int, g: int, code: u8, b: int)
    requires
        forall|i: int| 0 <= i < ts.len() ==> (ts[i] as int) < b,
    ensures
        forall|i: int|
            0 <= i < filter_code(ts, m, w, g, code).len() ==> (filter_code(
                ts,
                m,
                w,
                g,
                code,
            )[i] as int) < b,
    decreases ts.len(),
{
    let f = filter_code(ts, m, w, g, code);
    assert forall|i: int| 0 <= i < f.len() implies (f[i] as int) < b by {
        lemma_filter_code_membership(ts, m, w, g, code, f[i]);
        assert(f.contains(f[i]));
        let j = choose|j: int| 0 <= j < ts.len() && ts[j] == f[i];
    }
}

/// The total of the histogram buckets for codes below `c`.
pub open spec fn hist_sum(ts: Seq<u16>, m: Seq<u8>, w: int, g: int, c: int) -> int
    decreases c,
{
    if c <= 0 {
        0
    } else {
        hist_sum(ts, m, w, g, c - 1) + count_code(ts, m, w, g, (c - 1) as u8)
    }
}

/// Appending one candidate raises exactly the bucket of its own code: the
/// running total over codes below `c` grows by one exactly when that code is
/// below `c`.
proof fn lemma_hist_sum_push(ts: Seq<u16>, m: Seq<u8>, w: int, g: int, c: int)
    requires
        ts.len() > 0,
        c <= 243,
    ensures
        hist_sum(ts, m, w, g, c) == hist_sum(ts.drop_last(), m, w, g, c) + (if 0 <= (matrix_code(
            m,
            w,
            g,
            ts.last() as int,
        ) as int) < c {
            1int
        } else {
            0int
        }),
    decreases c,
{
    if c > 0 {
        lemma_hist_sum_push(ts, m, w, g, c - 1);
        let last_code = matrix_code(m, w, g, ts.last() as int);
        assert(count_code(ts, m, w, g, (c - 1) as u8) == count_code(ts.drop_last(), m, w, g, (c
            - 1) as u8) + (if last_code == (c - 1) as u8 {
            1int
        } else {
            0int
        }));
        assert((last_code == (c - 1) as u8) <==> (last_code as int == c - 1));
    }
}

/// Every candidate lands in exactly one bucket: over all 243 feedback codes
/// the histogram buckets add up to the size of the candidate set.
pub proof fn lemma_hist_sum_total(ts: Seq<u16>, m: Seq<u8>, w: int, g: int)
    requires
        forall|i: int| 0 <= i < ts.len() ==> (matrix_code(m, w, g, #[trigger] ts[i] as int) as int)
            < 243,
    ensures
        hist_sum(ts, m, w, g, 243) == ts.len(),
    decreases ts.len(),
{
    if ts.len() == 0 {
        assert forall|c: int| 0 <= c <= 243 implies hist_sum(ts, m, w, g, c) == 0 by {
            lemma_hist_sum_empty(ts, m, w, g, c);
        }
    } else {
        let d = ts.drop_last();
        assert(forall|i: int|
            0 <= i < d.len() ==> (matrix_code(m, w, g, #[trigger] d[i] as int) as int) < 243);
        lemma_hist_sum_total(d, m, w, g);
        lemma_hist_sum_push(ts, m, w, g, 243);
        assert(ts.contains(ts.last()));
    }
}

proof fn lemma_hist_sum_empty(ts: Seq<u16>, m: Seq<u8>, w: int, g: int, c: int)
    requires
        ts.len() == 0,
    ensures
        hist_sum(ts, m, w, g, c) == 0,
    decreases c,
{
    if c > 0 {
        lemma_hist_sum_empty(ts, m, w, g, c - 1);
    }
}

/// Partial histogram totals are never negative.
pub proof fn lemma_hist_sum_nonneg(ts: Seq<u16>, m: Seq<u8>, w: int, g: int, c: int)
    ensures
        hist_sum(ts, m, w, g, c) >= 0,
    decreases c,
{
    if c > 0 {
        lemma_hist_sum_nonneg(ts, m, w, g, c - 1);
    }
}

/// A single bucket never exceeds the running histogram total that covers it.
pub proof fn lemma_hist_single_bound(ts: Seq<u16>, m: Seq<u8>, w: int, g: int, d: int, c: int)
    requires
        0 <= d < c,
    ensures
        count_code(ts, m, w, g, d as u8) <= hist_sum(ts, m, w, g, c),
    decreases c,
{
    if d == c - 1 {
        lemma_hist_sum_nonneg(ts, m, w, g, c - 1);
    } else {
        lemma_hist_single_bound(ts, m, w, g, d, c - 1);
    }
}

/// Two distinct buckets together never exceed the running histogram total
/// that covers both.
pub proof fn lemma_hist_pair_bound(ts: Seq<u16>, m: Seq<u8>, w: int, g: int, d1: int, d2: int, c: int)
    requires
        0 <= d1 < d2 < c,
    ensures
        count_code(ts, m, w, g, d1 as u8) + count_code(ts, m, w, g, d2 as u8) <= hist_sum(
            ts,
            m,
            w,
            g,
            c,
        ),
    decreases c,
{
    if d2 == c - 1 {
        lemma_hist_single_bound(ts, m, w, g, d1, c - 1);
    } else {
        lemma_hist_pair_bound(ts, m, w, g, d1, d2, c - 1);
    }
}

/// Each bucket contributes at most its count times the logarithm of the
/// whole candidate count: the running weighted sum is bounded by the running
/// total times that logarithm.
pub proof fn lemma_score_sum_le(ts: Seq<u16>, m: Seq<u8>, w: int, g: int, c: int, n: int)
    requires
        ts.len() == n,
        n <= 0xFFFF,
        0 <= c <= 243,
    ensures
        score_sum(ts, m, w, g, c) <= hist_sum(ts, m, w, g, c) * log2_fixed_spec(n),
    decreases c,
{
    if c > 0 {
        lemma_score_sum_le(ts, m, w, g, c - 1, n);
        let cnt = count_code(ts, m, w, g, (c - 1) as u8);
        lemma_filter_code_len(ts, m, w, g, (c - 1) as u8);
        crate::entropy::lemma_log2_fixed_mono(cnt, n);
        crate::entropy::lemma_log2_fixed_bounds(n);
        if cnt > 0 {
            vstd::arithmetic::mul::lemma_mul_left_inequality(
                cnt,
                log2_fixed_spec(cnt),
                log2_fixed_spec(n),
            );
        } else {
            vstd::arithmetic::mul::lemma_mul_by_zero_is_zero(log2_fixed_spec(cnt));
            vstd::arithmetic::mul::lemma_mul_by_zero_is_zero(log2_fixed_spec(n));
        }
        vstd::arithmetic::mul::lemma_mul_is_distributive_add_other_way(
            log2_fixed_spec(n),
            hist_sum(ts, m, w, g, c - 1),
            cnt,
        );
    }
}

/// A bucket that is nonempty yet holds at most half of the candidates gives
/// back at least one unit against the uniform bound: the entropy part of its
/// guess's score is strictly positive.
pub proof fn lemma_score_sum_gap(ts: Seq<u16>, m: Seq<u8>, w: int, g: int, c: int, n: int, d: int)
    requires
        ts.len() == n,
        2 <= n <= 0xFFFF,
        0 <= d < c <= 243,
        1 <= count_code(ts, m, w, g, d as u8),
        count_code(ts, m, w, g, d as u8) <= n / 2,
    ensures
        score_sum(ts, m, w, g, c) <= hist_sum(ts, m, w, g, c) * log2_fixed_spec(n) - 1,
    decreases c,
{
    let cnt = count_code(ts, m, w, g, (c - 1) as u8);
    lemma_filter_code_len(ts, m, w, g, (c - 1) as u8);
    crate::entropy::lemma_log2_fixed_mono(cnt, n);
    crate::entropy::lemma_log2_fixed_bounds(n);
    if d == c - 1 {
        lemma_score_sum_le(ts, m, w, g, c - 1, n);
        crate::entropy::lemma_log2_fixed_gap(cnt, n);
        vstd::arithmetic::mul::lemma_mul_left_inequality(
            cnt,
            log2_fixed_spec(cnt),
            log2_fixed_spec(n) - 1,
        );
        vstd::arithmetic::mul::lemma_mul_is_distributive_sub(cnt, log2_fixed_spec(n), 1);
        assert(cnt * 1 == cnt);
    } else {
        lemma_score_sum_gap(ts, m, w, g, c - 1, n, d);
        if cnt > 0 {
            vstd::arithmetic::mul::lemma_mul_left_inequality(
                cnt,
                log2_fixed_spec(cnt),
                log2_fixed_spec(n),
            );
        } else {
            vstd::arithmetic::mul::lemma_mul_by_zero_is_zero(log2_fixed_spec(cnt));
            vstd::arithmetic::mul::lemma_mul_by_zero_is_zero(log2_fixed_spec(n));
        }
    }
    vstd::arithmetic::mul::lemma_mul_is_distributive_add_other_way(
        log2_fixed_spec(n),
        hist_sum(ts, m, w, g, c - 1),
        cnt,
    );
}

/// When every candidate produces the same code, that bucket keeps them all.
pub proof fn lemma_filter_code_full(ts: Seq<u16>, m: Seq<u8>, w: int, g: int, d: u8)
    requires
        forall|i: int| 0 <= i < ts.len() ==> matrix_code(m, w, g, #[trigger] ts[i] as int) == d,
    ensures
        filter_code(ts, m, w, g, d) == ts,
    decreases ts.len(),
{
    if ts.len() > 0 {
        let dr = ts.drop_last();
        assert(forall|i: int|
            0 <= i < dr.len() ==> matrix_code(m, w, g, #[trigger] dr[i] as int) == d);
        lemma_filter_code_full(dr, m, w, g, d);
        assert(ts.contains(ts.last()));
        assert(dr.push(ts.last()) =~= ts);
    }
}

/// When every candidate produces the same code, every other bucket is empty.
pub proof fn lemma_filter_code_none(ts: Seq<u16>, m: Seq<u8>, w: int, g: int, d: u8, other: u8)
    requires
        forall|i: int| 0 <= i < ts.len() ==> matrix_code(m, w, g, #[trigger] ts[i] as int) == d,
        other != d,
    ensures
        count_code(ts, m, w, g, other) == 0,
    decreases ts.len(),
{
    if ts.len() > 0 {
        let dr = ts.drop_last();
        assert(forall|i: int|
            0 <= i < dr.len() ==> matrix_code(m, w, g, #[trigger] dr[i] as int) == d);
        lemma_filter_code_none(dr, m, w, g, d, other);
        assert(ts.contains(ts.last()));
    }
}

/// A guess whose candidates all share one code has a weighted sum that
/// exactly matches the uniform bound: such a guess gains no information.
pub proof fn lemma_score_sum_uniform(ts: Seq<u16>, m: Seq<u8>, w: int, g: int, c: int, d: u8, n: int)
    requires
        ts.len() == n,
        n <= 0xFFFF,
        0 <= c <= 243,
        forall|i: int| 0 <= i < ts.len() ==> matrix_code(m, w, g, #[trigger] ts[i] as int) == d,
    ensures
        score_sum(ts, m, w, g, c) == if (d as int) < c {
            n * log2_fixed_spec(n)
        } else {
            0
        },
    decreases c,
{
    if c > 0 {
        lemma_score_sum_uniform(ts, m, w, g, c - 1, d, n);
        if d as int == c - 1 {
            lemma_filter_code_full(ts, m, w, g, d);
        } else {
            lemma_filter_code_none(ts, m, w, g, d, (c - 1) as u8);
            assert(count_code(ts, m, w, g, (c - 1) as u8) * log2_fixed_spec(
                count_code(ts, m, w, g, (c - 1) as u8),
            ) == 0);
        }
    }
}

/// The indices at which a mask is true, in increasing order: the vocabulary
/// positions of the words eligible as hidden answers.
pub open spec fn true_positions(msk: Seq<bool>) -> Seq<u16>
    decreases msk.len(),
{
    if msk.len() == 0 {
        Seq::empty()
    } else {
        let pre = true_positions(msk.drop_last());
        if msk.last() {
            pre.push((msk.len() - 1) as u16)
        } else {
            pre
        }
    }
}

/// The enumeration of true positions is strictly increasing, stays in range,
/// hits exactly the true entries, and misses none of them.
pub proof fn lemma_true_positions_props(msk: Seq<bool>)
    requires
        msk.len() <= 0xFFFF,
    ensures
        true_positions(msk).len() <= msk.len(),
        forall|j: int|
            0 <= j < true_positions(msk).len() ==> (#[trigger] true_positions(msk)[j] as int)
                < msk.len() && msk[true_positions(msk)[j] as int],
        forall|i: int, j: int|
            0 <= i < j < true_positions(msk).len() ==> true_positions(msk)[i] < true_positions(
                msk,
            )[j],
        forall|x: int|
            0 <= x < msk.len() && msk[x] ==> exists|k: int|
                0 <= k < true_positions(msk).len() && (#[trigger] true_positions(msk)[k] as int)
                    == x,
    decreases msk.len(),
{
    if msk.len() > 0 {
        let d = msk.drop_last();
        lemma_true_positions_props(d);
        let pre = true_positions(d);
        let tp = true_positions(msk);
        assert forall|x: int|
            0 <= x < msk.len() && msk[x] implies exists|k: int|
            0 <= k < tp.len() && (#[trigger] tp[k] as int) == x by {
            if x < msk.len() - 1 {
                assert(d[x] == msk[x]);
                let k = choose|k: int| 0 <= k < pre.len() && (#[trigger] pre[k] as int) == x;
                if msk.last() {
                    assert(tp[k] as int == x);
                } else {
                    assert(tp[k] as int == x);
                }
            } else {
                assert(msk.last());
                assert(tp[tp.len() - 1] as int == x);
            }
        }
    }
}

/// The weighted sum whose negation is the entropy part of a guess's score:
/// each bucket contributes its count times the fixed-point logarithm of that
/// count, over codes below `c`.
pub open spec fn score_sum(ts: Seq<u16>, m: Seq<u8>, w: int, g: int, c: int) -> int
    decreases c,
{
    if c <= 0 {
        0
    } else {
        score_sum(ts, m, w, g, c - 1) + count_code(ts, m, w, g, (c - 1) as u8) * log2_fixed_spec(
            count_code(ts, m, w, g, (c - 1) as u8),
        )
    }
}

/// Each bucket's weighted term is nonnegative and below 2^36, so the running
/// score sum stays within comfortable 64-bit bounds.
pub proof fn lemma_score_sum_bounds(ts: Seq<u16>, m: Seq<u8>, w: int, g: int, c: int)
    requires
        ts.len() <= 0xFFFF,
        0 <= c <= 243,
    ensures
        0 <= score_sum(ts, m, w, g, c) <= c * 68719476736,
    decreases c,
{
    if c > 0 {
        lemma_score_sum_bounds(ts, m, w, g, c - 1);
        let cnt = count_code(ts, m, w, g, (c - 1) as u8);
        lemma_filter_code_len(ts, m, w, g, (c - 1) as u8);
        lemma_log2_fixed_bounds(cnt);
        lemma_mul_nonnegative(cnt, log2_fixed_spec(cnt));
        if cnt > 0 && log2_fixed_spec(cnt) > 0 {
            lemma_mul_strict_upper_bound(cnt, 65536, log2_fixed_spec(cnt), 1048576);
        } else {
            assert(cnt * log2_fixed_spec(cnt) == 0 || cnt * log2_fixed_spec(cnt) <= 68719476736)
                by (nonlinear_arith)
                requires
                    0 <= cnt,
                    0 <= log2_fixed_spec(cnt),
                    cnt == 0 || log2_fixed_spec(cnt) == 0,
            ;
        }
    }
}

} // verus!
