use vstd::prelude::*;
use vstd::relations::{sorted_by, total_ordering};
use vstd::seq_lib::lemma_sorted_unique;
use crate::dtype::SeriesError;
use crate::element::DataElement;
use crate::ratio::Ratio;
use crate::dtype::DType;
use crate::series::{Series, all_of_dtype};

verus! {

/// The integers that a sequence of machine integers holds.
pub open spec fn ints(v: Seq<i64>) -> Seq<int> {
    v.map_values(|x: i64| x as int)
}

/// The integer values of the eligible elements (neither text nor NaN), in order.
pub open spec fn nums(s: Seq<DataElement>) -> Seq<int>
    decreases s.len(),
{
    if s.len() == 0 {
        Seq::empty()
    } else if s.last().eligible() {
        nums(s.drop_last()).push(s.last().int_value())
    } else {
        nums(s.drop_last())
    }
}

pub open spec fn sum_of(s: Seq<int>) -> int
    decreases s.len(),
{
    if s.len() == 0 { 0 } else { sum_of(s.drop_last()) + s.last() }
}

pub open spec fn sumsq_of(s: Seq<int>) -> int
    decreases s.len(),
{
    if s.len() == 0 { 0 } else { sumsq_of(s.drop_last()) + s.last() * s.last() }
}

pub open spec fn int_leq() -> spec_fn(int, int) -> bool {
    |a: int, b: int| a <= b
}

/// The values in ascending order.
pub open spec fn sorted_of(s: Seq<int>) -> Seq<int> {
    s.sort_by(int_leq())
}

pub open spec fn fits_i128(x: int) -> bool {
    i128::MIN <= x <= i128::MAX
}

/// `n·Σx² − (Σx)²`, which is `n` times the sum of squared deviations from the mean.
pub open spec fn spread_of(s: Seq<int>) -> int {
    s.len() * sumsq_of(s) - sum_of(s) * sum_of(s)
}

/// The computation of the variance stays within `i128`.
pub open spec fn var_fits(s: Seq<int>, ddof: int) -> bool {
    &&& fits_i128(sumsq_of(s))
    &&& fits_i128(s.len() * sumsq_of(s))
    &&& fits_i128(sum_of(s) * sum_of(s))
    &&& fits_i128(spread_of(s))
    &&& fits_i128(s.len() * (s.len() - ddof))
}

/// Median of sorted values: the middle one, or the halved sum of the two middle ones.
pub open spec fn median_of_sorted(p: Seq<int>) -> (int, int) {
    if p.len() % 2 == 1 {
        (p[p.len() as int / 2], 1)
    } else {
        (p[p.len() as int / 2 - 1] + p[p.len() as int / 2], 2)
    }
}

/// Linear interpolation at position `qn·(len−1)/qd` of sorted values.
pub open spec fn quantile_of_sorted(p: Seq<int>, qn: int, qd: int) -> (int, int) {
    let pos = qn * (p.len() - 1);
    let lo = pos / qd;
    let rem = pos % qd;
    if rem == 0 {
        (p[lo], 1)
    } else {
        (p[lo] * (qd - rem) + p[lo + 1] * rem, qd)
    }
}

pub open spec fn count_in(s: Seq<int>, x: int) -> nat {
    s.to_multiset().count(x)
}

/// `x` occurs at least as often as any value.
pub open spec fn is_top(s: Seq<int>, x: int) -> bool {
    forall|y: int| count_in(s, y) <= count_in(s, x)
}

pub open spec fn strictly_ascending(s: Seq<int>) -> bool {
    forall|i: int, j: int| 0 <= i < j < s.len() ==> s[i] < s[j]
}

/// The modes, ascending: every value that occurs in `s` as often as any value.
pub open spec fn is_modes(r: Seq<int>, s: Seq<int>) -> bool {
    &&& strictly_ascending(r)
    &&& forall|x: int| r.contains(x) <==> (s.contains(x) && is_top(s, x))
}

/// Relies on `stats::modes` (streaming-stats): after sorting, the values whose
/// count equals the highest count, ascending, or nothing when no value occurs twice.
#[verifier::external_body]
fn stats_modes(v: &Vec<i64>) -> (r: Vec<i64>)
    requires
        v.len() <= u32::MAX,
    ensures
        strictly_ascending(ints(r@)),
        forall|x: int|
            ints(r@).contains(x) <==> (count_in(ints(v@), x) > 1 && is_top(ints(v@), x)),
{
    stats::modes(v.iter().cloned())
}

/// Relies on `slice::sort` for `i64`: ascending order, same values.
#[verifier::external_body]
fn sort_values(v: &mut Vec<i64>)
    ensures
        sorted_by(ints(final(v)@), int_leq()),
        ints(final(v)@).to_multiset() == ints(old(v)@).to_multiset(),
{
    v.sort()
}

proof fn lemma_int_leq_total()
    ensures
        total_ordering(int_leq()),
{
}

/// Collects the integer values of the eligible elements of `v[lo..hi]`.
pub fn eligible_values(v: &Vec<DataElement>, lo: usize, hi: usize) -> (r: Vec<i64>)
    requires
        lo <= hi <= v.len(),
    ensures
        ints(r@) == nums(v@.subrange(lo as int, hi as int)),
{
    let mut r: Vec<i64> = Vec::new();
    let mut i: usize = lo;
    while i < hi
        invariant
            lo <= i <= hi <= v.len(),
            ints(r@) == nums(v@.subrange(lo as int, i as int)),
        decreases hi - i,
    {
        let e = &v[i];
        let ghost s = v@.subrange(lo as int, i as int + 1);
        assert(s.drop_last() == v@.subrange(lo as int, i as int));
        if e.is_eligible() {
            let x = e.to_i64();
            r.push(x);
            assert(ints(r@) == ints(r@.drop_last()).push(x as int));
        }
        i = i + 1;
    }
    r
}

proof fn lemma_sum_bound(s: Seq<i64>, k: int)
    requires
        0 <= k <= s.len(),
    ensures
        -k * 0x8000000000000000 <= sum_of(ints(s.subrange(0, k))) <= k * 0x7fffffffffffffff,
    decreases k,
{
    if k > 0 {
        lemma_sum_bound(s, k - 1);
        assert(ints(s.subrange(0, k)).drop_last() == ints(s.subrange(0, k - 1)));
    }
}

/// The sum of the values.
pub fn total(xs: &Vec<i64>) -> (r: i128)
    ensures
        r == sum_of(ints(xs@)),
{
    let mut acc: i128 = 0;
    let mut i: usize = 0;
    while i < xs.len()
        invariant
            i <= xs.len(),
            acc == sum_of(ints(xs@.subrange(0, i as int))),
        decreases xs.len() - i,
    {
        proof {
            lemma_sum_bound(xs@, i as int + 1);
            assert(ints(xs@.subrange(0, i as int + 1)).drop_last()
                == ints(xs@.subrange(0, i as int)));
            assert(xs.len() <= usize::MAX);
            assert((i as int + 1) * 0x8000000000000000 <= 0x10000000000000000 * 0x8000000000000000)
                by (nonlinear_arith)
                requires i < xs.len(), xs.len() <= usize::MAX, usize::MAX <= 0xffffffffffffffff;
        }
        acc = acc + xs[i] as i128;
        i = i + 1;
    }
    assert(xs@.subrange(0, xs.len() as int) == xs@);
    acc
}

pub open spec fn is_min(s: Seq<int>, m: int) -> bool {
    s.contains(m) && forall|i: int| 0 <= i < s.len() ==> m <= #[trigger] s[i]
}

pub open spec fn is_max(s: Seq<int>, m: int) -> bool {
    s.contains(m) && forall|i: int| 0 <= i < s.len() ==> #[trigger] s[i] <= m
}

/// The smallest value; the first of equal ones is kept.
pub fn min_value(xs: &Vec<i64>) -> (r: i64)
    requires
        xs.len() > 0,
    ensures
        is_min(ints(xs@), r as int),
{
    let mut best: i64 = xs[0];
    let mut at: usize = 0;
    let mut i: usize = 1;
    while i < xs.len()
        invariant
            1 <= i <= xs.len(),
            at < i,
            best == xs@[at as int],
            forall|k: int| 0 <= k < i ==> best <= #[trigger] xs@[k],
        decreases xs.len() - i,
    {
        if xs[i] < best {
            best = xs[i];
            at = i;
        }
        i = i + 1;
    }
    assert(ints(xs@)[at as int] == best as int);
    best
}

/// The largest value; the first of equal ones is kept.
pub fn max_value(xs: &Vec<i64>) -> (r: i64)
    requires
        xs.len() > 0,
    ensures
        is_max(ints(xs@), r as int),
{
    let mut best: i64 = xs[0];
    let mut at: usize = 0;
    let mut i: usize = 1;
    while i < xs.len()
        invariant
            1 <= i <= xs.len(),
            at < i,
            best == xs@[at as int],
            forall|k: int| 0 <= k < i ==> #[trigger] xs@[k] <= best,
        decreases xs.len() - i,
    {
        if xs[i] > best {
            best = xs[i];
            at = i;
        }
        i = i + 1;
    }
    assert(ints(xs@)[at as int] == best as int);
    best
}

proof fn lemma_sumsq_mono(s: Seq<int>, j: int)
    requires
        0 <= j <= s.len(),
    ensures
        0 <= sumsq_of(s.subrange(0, j)) <= sumsq_of(s),
    decreases s.len(),
{
    if s.len() > 0 {
        if j == s.len() {
            assert(s.subrange(0, j) == s);
            lemma_sumsq_mono(s.drop_last(), j - 1);
            assert(s.drop_last().subrange(0, j - 1) == s.drop_last());
        } else {
            lemma_sumsq_mono(s.drop_last(), j);
            assert(s.drop_last().subrange(0, j) == s.subrange(0, j));
        }
        assert(s.last() * s.last() >= 0) by (nonlinear_arith);
    }
}

/// The sum of squares, when it fits in `i128`.
fn sum_squares(xs: &Vec<i64>) -> (r: Option<i128>)
    ensures
        match r {
            Some(q) => q == sumsq_of(ints(xs@)),
            None => !fits_i128(sumsq_of(ints(xs@))),
        },
{
    let mut acc: i128 = 0;
    let mut i: usize = 0;
    while i < xs.len()
        invariant
            i <= xs.len(),
            acc == sumsq_of(ints(xs@.subrange(0, i as int))),
        decreases xs.len() - i,
    {
        proof {
            assert(ints(xs@.subrange(0, i as int + 1)).drop_last()
                == ints(xs@.subrange(0, i as int)));
            assert(ints(xs@.subrange(0, i as int + 1)) == ints(xs@).subrange(0, i as int + 1));
            lemma_sumsq_mono(ints(xs@), i as int + 1);
        }
        let x: i128 = xs[i] as i128;
        assert(x * x <= 0x40000000000000000000000000000000) by (nonlinear_arith)
            requires -0x8000000000000000 <= x <= 0x7fffffffffffffff;
        assert(x * x >= 0) by (nonlinear_arith);
        match acc.checked_add(x * x) {
            Some(a) => acc = a,
            None => return None,
        }
        i = i + 1;
    }
    assert(xs@.subrange(0, xs.len() as int) == xs@);
    Some(acc)
}

/// Variance `Σ(x − mean)² / (n − ddof)`, as `(n·Σx² − (Σx)²) / (n·(n − ddof))`;
/// fails without more than `ddof` values, or where `i128` cannot hold the terms.
pub open spec fn var_spec(s: Seq<int>, ddof: int) -> Result<Ratio, SeriesError> {
    if s.len() == 0 || s.len() <= ddof {
        Err(SeriesError::EmptyInput)
    } else if !var_fits(s, ddof) {
        Err(SeriesError::Conversion)
    } else {
        Ok(Ratio { num: spread_of(s) as i128, den: (s.len() * (s.len() - ddof)) as i128 })
    }
}

pub fn variance_of(xs: &Vec<i64>, ddof: u64) -> (r: Result<Ratio, SeriesError>)
    ensures
        r == var_spec(ints(xs@), ddof as int),
{
    let n: usize = xs.len();
    if n == 0 || n as u64 <= ddof {
        return Err(SeriesError::EmptyInput);
    }
    let total = total(xs);
    let sq = match sum_squares(xs) {
        Some(q) => q,
        None => return Err(SeriesError::Conversion),
    };
    let n128: i128 = n as i128;
    let a = match n128.checked_mul(sq) {
        Some(a) => a,
        None => return Err(SeriesError::Conversion),
    };
    let b = match total.checked_mul(total) {
        Some(b) => b,
        None => return Err(SeriesError::Conversion),
    };
    let num = match a.checked_sub(b) {
        Some(d) => d,
        None => return Err(SeriesError::Conversion),
    };
    let den = match n128.checked_mul(n128 - ddof as i128) {
        Some(d) => d,
        None => return Err(SeriesError::Conversion),
    };
    Ok(Ratio { num, den })
}

/// The values of `xs` in ascending order.
pub fn sorted_values(xs: &Vec<i64>) -> (r: Vec<i64>)
    ensures
        ints(r@) == sorted_of(ints(xs@)),
        r.len() == xs.len(),
        sorted_by(ints(r@), int_leq()),
        ints(r@).to_multiset() == ints(xs@).to_multiset(),
{
    let mut p = xs.clone();
    sort_values(&mut p);
    proof {
        broadcast use vstd::seq_lib::group_to_multiset_ensures;
        assert(ints(p@).to_multiset().len() == ints(xs@).to_multiset().len());
        lemma_int_leq_total();
        ints(xs@).lemma_sort_by_ensures(int_leq());
        lemma_sorted_unique(ints(p@), sorted_of(ints(xs@)), int_leq());
    }
    p
}

/// The median: the middle value, or the mean of the two middle values.
pub open spec fn median_spec(s: Seq<int>) -> Result<Ratio, SeriesError> {
    if s.len() == 0 {
        Err(SeriesError::EmptyInput)
    } else {
        let m = median_of_sorted(sorted_of(s));
        Ok(Ratio { num: m.0 as i128, den: m.1 as i128 })
    }
}

pub fn median_of(xs: &Vec<i64>) -> (r: Result<Ratio, SeriesError>)
    ensures
        r == median_spec(ints(xs@)),
{
    if xs.len() == 0 {
        return Err(SeriesError::EmptyInput);
    }
    let p = sorted_values(xs);
    assert(ints(p@).len() == xs.len());
    let n = p.len();
    if n % 2 == 1 {
        assert(ints(p@)[n as int / 2] == p@[n as int / 2] as int);
        Ok(Ratio { num: p[n / 2] as i128, den: 1 })
    } else {
        assert(ints(p@)[n as int / 2] == p@[n as int / 2] as int);
        assert(ints(p@)[n as int / 2 - 1] == p@[n as int / 2 - 1] as int);
        Ok(Ratio { num: p[n / 2 - 1] as i128 + p[n / 2] as i128, den: 2 })
    }
}

/// The `q = qn/qd` quantile, interpolated linearly at position `q·(n−1)`.
pub open spec fn quantile_spec(s: Seq<int>, qn: int, qd: int) -> Result<Ratio, SeriesError> {
    if s.len() == 0 {
        Err(SeriesError::EmptyInput)
    } else {
        let m = quantile_of_sorted(sorted_of(s), qn, qd);
        Ok(Ratio { num: m.0 as i128, den: m.1 as i128 })
    }
}

pub fn quantile_of(xs: &Vec<i64>, qn: u64, qd: u64) -> (r: Result<Ratio, SeriesError>)
    requires
        0 < qd,
        qn <= qd,
    ensures
        r == quantile_spec(ints(xs@), qn as int, qd as int),
{
    if xs.len() == 0 {
        return Err(SeriesError::EmptyInput);
    }
    let p = sorted_values(xs);
    assert(ints(p@).len() == xs.len());
    let n = p.len();
    assert(qn as u128 * (n - 1) as u128 <= 0xffffffffffffffff * 0xffffffffffffffff) by (nonlinear_arith)
        requires qn <= 0xffffffffffffffffu64, (n - 1) <= 0xffffffffffffffffu64, n >= 1;
    let pos: u128 = qn as u128 * (n - 1) as u128;
    assert(pos <= qd * (n - 1)) by (nonlinear_arith)
        requires pos == qn * (n - 1), qn <= qd, n >= 1;
    let lo: u128 = pos / qd as u128;
    let rem: u128 = pos % qd as u128;
    assert(lo <= n - 1) by (nonlinear_arith)
        requires lo as int == pos as int / qd as int, pos <= qd * (n - 1), qd > 0;
    assert(rem > 0 ==> lo < n - 1) by (nonlinear_arith)
        requires lo as int == pos as int / qd as int, rem as int == pos as int % qd as int, pos <= qd * (n - 1), qd > 0, lo <= n - 1;
    let lo: usize = lo as usize;
    assert(ints(p@)[lo as int] == p@[lo as int] as int);
    if rem == 0 {
        Ok(Ratio { num: p[lo] as i128, den: 1 })
    } else {
        assert(ints(p@)[lo as int + 1] == p@[lo as int + 1] as int);
        let w1: i128 = (qd as u128 - rem) as i128;
        let w2: i128 = rem as i128;
        let a: i128 = p[lo] as i128;
        let b: i128 = p[lo + 1] as i128;
        assert(-0x8000000000000000 * w1 <= a * w1 <= 0x7fffffffffffffff * w1) by (nonlinear_arith)
            requires -0x8000000000000000 <= a <= 0x7fffffffffffffff, w1 >= 0;
        assert(-0x8000000000000000 * w2 <= b * w2 <= 0x7fffffffffffffff * w2) by (nonlinear_arith)
            requires -0x8000000000000000 <= b <= 0x7fffffffffffffff, w2 >= 0;
        Ok(Ratio { num: a * w1 + b * w2, den: qd as i128 })
    }
}

/// No value among the first `k` occurs more often than `s[b]`.
spec fn dominates(s: Seq<int>, b: int, k: int) -> bool {
    forall|i: int| 0 <= i < k ==> count_in(s, #[trigger] s[i]) <= count_in(s, s[b])
}

proof fn lemma_best_index(s: Seq<int>, k: int)
    requires
        1 <= k <= s.len(),
    ensures
        exists|b: int| 0 <= b < k && #[trigger] dominates(s, b, k),
    decreases k,
{
    if k > 1 {
        lemma_best_index(s, k - 1);
        let b = choose|b: int| 0 <= b < k - 1 && #[trigger] dominates(s, b, k - 1);
        if count_in(s, s[k - 1]) > count_in(s, s[b]) {
            assert(dominates(s, k - 1, k));
        } else {
            assert(dominates(s, b, k));
        }
    } else {
        assert(dominates(s, 0, 1));
    }
}

/// A non-empty sequence has a value that occurs as often as any.
proof fn lemma_top_exists(s: Seq<int>)
    requires
        s.len() > 0,
    ensures
        exists|x: int| s.contains(x) && is_top(s, x),
{
    broadcast use vstd::seq_lib::group_to_multiset_ensures;
    lemma_best_index(s, s.len() as int);
    let b = choose|b: int| 0 <= b < s.len() && #[trigger] dominates(s, b, s.len() as int);
    assert forall|y: int| #[trigger] count_in(s, y) <= count_in(s, s[b]) by {
        if count_in(s, y) > 0 {
            assert(s.contains(y));
            let i = choose|i: int| 0 <= i < s.len() && s[i] == y;
            assert(count_in(s, s[i]) <= count_in(s, s[b]));
        }
    }
    assert(s.contains(s[b]));
}

/// The modes in ascending order: the values that occur as often as any.
/// More than `u32::MAX` values are refused with `Conversion`: the counting
/// that this relies on holds counts in `u32`.
pub fn modes_of(xs: &Vec<i64>) -> (r: Result<Vec<i64>, SeriesError>)
    ensures
        xs.len() > u32::MAX ==> r == Err::<Vec<i64>, SeriesError>(SeriesError::Conversion),
        xs.len() <= u32::MAX ==> r is Ok && is_modes(ints(r->Ok_0@), ints(xs@)),
{
    if xs.len() > u32::MAX as usize {
        return Err(SeriesError::Conversion);
    }
    let ms = stats_modes(xs);
    let ghost s = ints(xs@);
    if ms.len() > 0 || xs.len() == 0 {
        proof {
            broadcast use vstd::seq_lib::group_to_multiset_ensures;
            if ms.len() > 0 {
                let m = ints(ms@)[0];
                assert(ints(ms@).contains(m));
                assert forall|x: int| ints(ms@).contains(x) <==> (s.contains(x) && is_top(s, x)) by {
                    if s.contains(x) && is_top(s, x) {
                        assert(count_in(s, x) >= count_in(s, m));
                    }
                }
            }
        }
        Ok(ms)
    } else {
        let p = sorted_values(xs);
        proof {
            broadcast use vstd::seq_lib::group_to_multiset_ensures;
            lemma_top_exists(s);
            let t = choose|x: int| s.contains(x) && is_top(s, x);
            assert(!ints(ms@).contains(t));
            assert(count_in(s, t) <= 1);
            let q = ints(p@);
            assert forall|x: int| q.to_multiset().contains(x) implies q.to_multiset().count(x) == 1 by {
                assert(count_in(s, x) <= count_in(s, t));
            }
            q.lemma_multiset_has_no_duplicates_conv();
            assert forall|i: int, j: int| 0 <= i < j < q.len() implies q[i] < q[j] by {
                assert(int_leq()(q[i], q[j]));
            }
            assert forall|x: int| q.contains(x) <==> (s.contains(x) && is_top(s, x)) by {
                if s.contains(x) {
                    assert forall|y: int| #[trigger] count_in(s, y) <= count_in(s, x) by {
                        assert(count_in(s, y) <= count_in(s, t));
                    }
                }
            }
        }
        Ok(p)
    }
}

/// The smallest of the values (there is one when `s` is not empty).
pub open spec fn min_spec(s: Seq<int>) -> int {
    choose|m: int| is_min(s, m)
}

pub open spec fn max_spec(s: Seq<int>) -> int {
    choose|m: int| is_max(s, m)
}

proof fn lemma_min_spec(s: Seq<int>, m: int)
    requires
        is_min(s, m),
    ensures
        min_spec(s) == m,
{
    let c = min_spec(s);
    assert(is_min(s, c));
    let i = choose|i: int| 0 <= i < s.len() && s[i] == c;
    let j = choose|j: int| 0 <= j < s.len() && s[j] == m;
    assert(m <= s[i] && c <= s[j]);
}

proof fn lemma_max_spec(s: Seq<int>, m: int)
    requires
        is_max(s, m),
    ensures
        max_spec(s) == m,
{
    let c = max_spec(s);
    assert(is_max(s, c));
    let i = choose|i: int| 0 <= i < s.len() && s[i] == c;
    let j = choose|j: int| 0 <= j < s.len() && s[j] == m;
    assert(s[i] <= m && s[j] <= c);
}

/// A reduction that the rolling-window and group-by engines apply.
#[derive(Debug, Clone, Copy, PartialEq, Eq, Structural)]
pub enum Agg {
    Sum,
    Mean,
    Var(u64),
    Median,
    Min,
    Max,
}

/// What each reduction gives on the eligible values `s`. The mean divides
/// by the number of eligible values and fails where there is none.
pub open spec fn agg_spec(kind: Agg, s: Seq<int>) -> Result<Ratio, SeriesError> {
    match kind {
        Agg::Sum => Ok(Ratio { num: sum_of(s) as i128, den: 1 }),
        Agg::Mean => if s.len() == 0 {
            Err(SeriesError::EmptyInput)
        } else {
            Ok(Ratio { num: sum_of(s) as i128, den: s.len() as i128 })
        },
        Agg::Var(ddof) => var_spec(s, ddof as int),
        Agg::Median => median_spec(s),
        Agg::Min => if s.len() == 0 {
            Err(SeriesError::EmptyInput)
        } else {
            Ok(Ratio { num: min_spec(s) as i128, den: 1 })
        },
        Agg::Max => if s.len() == 0 {
            Err(SeriesError::EmptyInput)
        } else {
            Ok(Ratio { num: max_spec(s) as i128, den: 1 })
        },
    }
}

/// Applies a reduction to the values.
pub fn aggregate(xs: &Vec<i64>, kind: Agg) -> (r: Result<Ratio, SeriesError>)
    ensures
        r == agg_spec(kind, ints(xs@)),
        r is Ok ==> r->Ok_0.wf(),
{
    match kind {
        Agg::Sum => Ok(Ratio { num: total(xs), den: 1 }),
        Agg::Mean => {
            if xs.len() == 0 {
                Err(SeriesError::EmptyInput)
            } else {
                Ok(Ratio { num: total(xs), den: xs.len() as i128 })
            }
        },
        Agg::Var(ddof) => {
            let r = variance_of(xs, ddof);
            proof {
                if r is Ok {
                    let s = ints(xs@);
                    assert(s.len() * (s.len() - ddof) > 0) by (nonlinear_arith)
                        requires s.len() > ddof;
                }
            }
            r
        },
        Agg::Median => median_of(xs),
        Agg::Min => {
            if xs.len() == 0 {
                Err(SeriesError::EmptyInput)
            } else {
                let m = min_value(xs);
                proof { lemma_min_spec(ints(xs@), m as int); }
                Ok(Ratio { num: m as i128, den: 1 })
            }
        },
        Agg::Max => {
            if xs.len() == 0 {
                Err(SeriesError::EmptyInput)
            } else {
                let m = max_value(xs);
                proof { lemma_max_spec(ints(xs@), m as int); }
                Ok(Ratio { num: m as i128, den: 1 })
            }
        },
    }
}

proof fn lemma_nums_i32(s: Seq<DataElement>)
    requires
        all_of_dtype(s, DType::I32),
    ensures
        forall|i: int| 0 <= i < nums(s).len() ==>
            i32::MIN <= #[trigger] nums(s)[i] <= i32::MAX,
    decreases s.len(),
{
    if s.len() > 0 {
        assert(all_of_dtype(s.drop_last(), DType::I32)) by {
            assert forall|i: int| 0 <= i < s.drop_last().len() implies
                (#[trigger] s.drop_last()[i]).spec_dtype() == DType::I32 by {
                assert(s.drop_last()[i] == s[i]);
            }
        }
        lemma_nums_i32(s.drop_last());
        let l = s.last();
        assert(s[s.len() - 1] == l);
        assert(l.spec_dtype() == DType::I32);
        if let DataElement::I32(v) = l {
            assert(i32::MIN <= l.int_value() <= i32::MAX);
        }
        let p = nums(s.drop_last());
        if l.eligible() {
            assert(nums(s) == p.push(l.int_value()));
            assert forall|i: int| 0 <= i < nums(s).len() implies
                i32::MIN <= #[trigger] nums(s)[i] <= i32::MAX by {
                if i < p.len() {
                    assert(nums(s)[i] == p[i]);
                }
            }
        }
    }
}

impl Series {
    /// The integer values of the eligible elements, in order.
    pub open spec fn spec_nums(&self) -> Seq<int> {
        nums(self.spec_values())
    }

    fn all_nums(&self) -> (r: Vec<i64>)
        ensures
            ints(r@) == self.spec_nums(),
    {
        let v = self.values();
        let r = eligible_values(v, 0, v.len());
        assert(v@.subrange(0, v.len() as int) == v@);
        r
    }

    /// Sum of the eligible elements; zero where there is none.
    /// Float elements are read as their values truncated toward zero.
    pub fn sum(&self) -> (r: i128)
        ensures
            r == sum_of(self.spec_nums()),
    {
        total(&self.all_nums())
    }

    /// Mean of the eligible elements, as sum over their count.
    /// Float elements are read as their values truncated toward zero.
    pub fn mean(&self) -> (r: Result<Ratio, SeriesError>)
        ensures
            r == agg_spec(Agg::Mean, self.spec_nums()),
            self.spec_nums().len() > 0 ==> r == Ok::<Ratio, SeriesError>(
                Ratio { num: sum_of(self.spec_nums()) as i128, den: self.spec_nums().len() as i128 },
            ),
    {
        aggregate(&self.all_nums(), Agg::Mean)
    }

    /// The smallest eligible value.
    /// Float elements are read as their values truncated toward zero.
    pub fn min(&self) -> (r: Result<i64, SeriesError>)
        ensures
            self.spec_nums().len() == 0 ==> r == Err::<i64, SeriesError>(SeriesError::EmptyInput),
            self.spec_nums().len() > 0 ==> r is Ok && is_min(self.spec_nums(), r->Ok_0 as int),
    {
        let xs = self.all_nums();
        if xs.len() == 0 {
            Err(SeriesError::EmptyInput)
        } else {
            Ok(min_value(&xs))
        }
    }

    /// The largest eligible value.
    /// Float elements are read as their values truncated toward zero.
    pub fn max(&self) -> (r: Result<i64, SeriesError>)
        ensures
            self.spec_nums().len() == 0 ==> r == Err::<i64, SeriesError>(SeriesError::EmptyInput),
            self.spec_nums().len() > 0 ==> r is Ok && is_max(self.spec_nums(), r->Ok_0 as int),
    {
        let xs = self.all_nums();
        if xs.len() == 0 {
            Err(SeriesError::EmptyInput)
        } else {
            Ok(max_value(&xs))
        }
    }

    /// Variance of the eligible values with `ddof` degrees of freedom taken off.
    /// Float elements are read as their values truncated toward zero.
    pub fn var(&self, ddof: u64) -> (r: Result<Ratio, SeriesError>)
        ensures
            r == var_spec(self.spec_nums(), ddof as int),
    {
        variance_of(&self.all_nums(), ddof)
    }

    /// Float elements are read as their values truncated toward zero.
    pub fn median(&self) -> (r: Result<Ratio, SeriesError>)
        ensures
            r == median_spec(self.spec_nums()),
    {
        median_of(&self.all_nums())
    }

    /// The `qn/qd` quantile of the eligible values.
    /// Float elements are read as their values truncated toward zero.
    pub fn quantile(&self, qn: u64, qd: u64) -> (r: Result<Ratio, SeriesError>)
        requires
            0 < qd,
            qn <= qd,
        ensures
            r == quantile_spec(self.spec_nums(), qn as int, qd as int),
    {
        quantile_of(&self.all_nums(), qn, qd)
    }

    /// The modes of the eligible values (every value that occurs as often as
    /// any), ascending, typed `I32` when this series is and `I64` otherwise.
    /// Float elements are read truncated; more than `u32::MAX` eligible
    /// values fail with `Conversion`.
    pub fn mode(&self) -> (r: Result<Series, SeriesError>)
        requires
            self.wf(),
        ensures
            self.spec_nums().len() == 0 ==> r == Err::<Series, SeriesError>(SeriesError::EmptyInput),
            self.spec_nums().len() > u32::MAX ==> r == Err::<Series, SeriesError>(SeriesError::Conversion),
            0 < self.spec_nums().len() <= u32::MAX ==> r is Ok && ({
                let m = r->Ok_0;
                let d = if self.spec_dtype() == Some(DType::I32) { DType::I32 } else { DType::I64 };
                let vals = m.spec_values().map_values(|e: DataElement| e.int_value());
                &&& m.wf()
                &&& all_of_dtype(m.spec_values(), d)
                &&& is_modes(vals, self.spec_nums())
            }),
    {
        let xs = self.all_nums();
        if xs.len() == 0 {
            return Err(SeriesError::EmptyInput);
        }
        let ms = match modes_of(&xs) {
            Ok(ms) => ms,
            Err(e) => return Err(e),
        };
        let narrow = self.dtype() == Some(DType::I32);
        proof {
            broadcast use vstd::seq_lib::group_to_multiset_ensures;
            if narrow {
                lemma_nums_i32(self.spec_values());
            }
            assert forall|k: int| 0 <= k < ms.len() implies
                ints(xs@).contains(#[trigger] ms@[k] as int) by {
                assert(ints(ms@).contains(ints(ms@)[k]));
                assert(ints(ms@)[k] == ms@[k] as int);
            }
        }
        let mut out: Vec<DataElement> = Vec::new();
        let mut i: usize = 0;
        while i < ms.len()
            invariant
                i <= ms.len(),
                out.len() == i,
                forall|k: int| 0 <= k < ms.len() ==> ints(xs@).contains(#[trigger] ms@[k] as int),
                narrow ==> forall|k: int| 0 <= k < ints(xs@).len() ==>
                    i32::MIN <= #[trigger] ints(xs@)[k] <= i32::MAX,
                forall|k: int| 0 <= k < i ==> (#[trigger] out@[k]).int_value() == ms@[k] as int,
                forall|k: int| 0 <= k < i ==> (#[trigger] out@[k]).spec_dtype()
                    == if narrow { DType::I32 } else { DType::I64 },
            decreases ms.len() - i,
        {
            if narrow {
                assert(ints(xs@).contains(ms@[i as int] as int));
                out.push(DataElement::I32(ms[i] as i32));
            } else {
                out.push(DataElement::I64(ms[i]));
            }
            i = i + 1;
        }
        let d = if narrow { DType::I32 } else { DType::I64 };
        let m = Series::from_typed(out, d);
        proof {
            let vals = m.spec_values().map_values(|e: DataElement| e.int_value());
            assert(vals == ints(ms@));
        }
        Ok(m)
    }
}

/// `Σ (a·x − b)²` over the values.
pub open spec fn scaled_dev_sum(s: Seq<int>, a: int, b: int) -> int
    decreases s.len(),
{
    if s.len() == 0 {
        0
    } else {
        scaled_dev_sum(s.drop_last(), a, b) + (a * s.last() - b) * (a * s.last() - b)
    }
}

proof fn lemma_scaled_dev_sum(s: Seq<int>, a: int, b: int)
    ensures
        scaled_dev_sum(s, a, b) == a * a * sumsq_of(s) - 2 * a * b * sum_of(s) + s.len() * b * b,
    decreases s.len(),
{
    if s.len() > 0 {
        let p = s.drop_last();
        let x = s.last();
        lemma_scaled_dev_sum(p, a, b);
        assert((a * x - b) * (a * x - b) == a * a * (x * x) - 2 * a * b * x + b * b)
            by (nonlinear_arith);
        assert(a * a * (sumsq_of(p) + x * x) == a * a * sumsq_of(p) + a * a * (x * x))
            by (nonlinear_arith);
        assert(2 * a * b * (sum_of(p) + x) == 2 * a * b * sum_of(p) + 2 * a * b * x)
            by (nonlinear_arith);
        assert((p.len() + 1) * b * b == p.len() * b * b + b * b) by (nonlinear_arith);
    }
}

/// The variance's numerator is the sum of squared deviations from the mean:
/// with `n` values summing to `S`, `Σ (n·x − S)² = n · (n·Σx² − S²)`, so
/// `(n·Σx² − S²) / (n·(n − ddof))` equals `Σ (x − S/n)² / (n − ddof)`.
pub proof fn law_variance_is_squared_deviations(s: Seq<int>)
    ensures
        scaled_dev_sum(s, s.len() as int, sum_of(s)) == s.len() * spread_of(s),
{
    let n = s.len() as int;
    let t = sum_of(s);
    lemma_scaled_dev_sum(s, n, t);
    assert(n * n * sumsq_of(s) - 2 * n * t * t + n * t * t == n * (n * sumsq_of(s) - t * t))
        by (nonlinear_arith);
}

} // verus!
