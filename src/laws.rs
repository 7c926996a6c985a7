use vstd::prelude::*;
use crate::aggregate::{Agg, agg_spec, is_max, is_min, max_spec, min_spec, nums, sum_of};
use crate::dtype::{DType, SeriesError};
use crate::element::DataElement;
use crate::groupby::{distinct_keys, has_key};
use crate::ratio::Ratio;
use crate::rolling::Rolling;
use crate::series::{Series, coerce_error, first_coerce_error};

verus! {

/// Every element is numeric: neither text nor NaN.
pub open spec fn all_numeric(s: Seq<DataElement>) -> bool {
    forall|i: int| 0 <= i < s.len() ==> (#[trigger] s[i]).eligible()
}

/// The integer value of every element, in order.
pub open spec fn values_of(s: Seq<DataElement>) -> Seq<int> {
    s.map_values(|e: DataElement| e.int_value())
}

proof fn lemma_nums_numeric(s: Seq<DataElement>)
    requires
        all_numeric(s),
    ensures
        nums(s) == values_of(s),
    decreases s.len(),
{
    if s.len() > 0 {
        assert(all_numeric(s.drop_last())) by {
            assert forall|i: int| 0 <= i < s.drop_last().len() implies
                (#[trigger] s.drop_last()[i]).eligible() by {
                assert(s.drop_last()[i] == s[i]);
            }
        }
        lemma_nums_numeric(s.drop_last());
        assert(s[s.len() - 1].eligible());
        assert(values_of(s) == values_of(s.drop_last()).push(s.last().int_value()));
    }
}

/// On a non-empty series of numbers, the sum is the sum of all its values and
/// the mean is that sum over the length.
pub proof fn law_sum_and_mean(s: Series)
    requires
        s.spec_len() > 0,
        all_numeric(s.spec_values()),
    ensures
        sum_of(s.spec_nums()) == sum_of(values_of(s.spec_values())),
        agg_spec(Agg::Mean, s.spec_nums()) == Ok::<Ratio, SeriesError>(
            Ratio { num: sum_of(s.spec_nums()) as i128, den: s.spec_len() as i128 },
        ),
{
    lemma_nums_numeric(s.spec_values());
}

proof fn lemma_min_max_exist(s: Seq<int>)
    requires
        s.len() > 0,
    ensures
        exists|m: int| is_min(s, m),
        exists|m: int| is_max(s, m),
    decreases s.len(),
{
    if s.len() == 1 {
        assert(is_min(s, s[0]));
        assert(is_max(s, s[0]));
    } else {
        let p = s.drop_last();
        lemma_min_max_exist(p);
        let a = choose|m: int| is_min(p, m);
        let b = choose|m: int| is_max(p, m);
        let l = s.last();
        assert forall|i: int| 0 <= i < p.len() implies s[i] == #[trigger] p[i] by {}
        let mn = if l < a { l } else { a };
        let mx = if l > b { l } else { b };
        assert(s[s.len() - 1] == l);
        assert(is_min(s, mn)) by {
            if l >= a {
                let j = choose|j: int| 0 <= j < p.len() && p[j] == a;
                assert(s[j] == a);
            }
            assert forall|i: int| 0 <= i < s.len() implies mn <= #[trigger] s[i] by {
                if i < p.len() {
                    assert(s[i] == p[i]);
                }
            }
        }
        assert(is_max(s, mx)) by {
            if l <= b {
                let j = choose|j: int| 0 <= j < p.len() && p[j] == b;
                assert(s[j] == b);
            }
            assert forall|i: int| 0 <= i < s.len() implies #[trigger] s[i] <= mx by {
                if i < p.len() {
                    assert(s[i] == p[i]);
                }
            }
        }
    }
}

/// The minimum is at most, and the maximum at least, every value; both
/// fail without values.
pub proof fn law_min_max_bound(s: Seq<int>)
    ensures
        s.len() == 0 ==> agg_spec(Agg::Min, s) == Err::<Ratio, SeriesError>(SeriesError::EmptyInput)
            && agg_spec(Agg::Max, s) == Err::<Ratio, SeriesError>(SeriesError::EmptyInput),
        s.len() > 0 ==> forall|i: int| 0 <= i < s.len() ==>
            min_spec(s) <= #[trigger] s[i] <= max_spec(s),
{
    if s.len() > 0 {
        lemma_min_max_exist(s);
        let a = min_spec(s);
        let b = max_spec(s);
        assert(is_min(s, a));
        assert(is_max(s, b));
    }
}

/// Coercing text or a NaN to an integer type always fails.
pub proof fn law_text_or_nan_to_int_fails(s: Seq<DataElement>, t: DType, i: int)
    requires
        t == DType::I32 || t == DType::I64,
        0 <= i < s.len(),
        s[i].spec_dtype() == DType::STRING || s[i].spec_is_nan(),
    ensures
        first_coerce_error(s, t) is Some,
    decreases s.len(),
{
    if i < s.len() - 1 {
        assert(s.drop_last()[i] == s[i]);
        law_text_or_nan_to_int_fails(s.drop_last(), t, i);
    } else {
        assert(coerce_error(s.last(), t) == Some(SeriesError::TypeCoercion));
    }
}

/// A rolled result has the length of the series, nothing before the first
/// full window, and at each later index the direct reduction of that window.
pub proof fn law_rolling_windows(r: Rolling, kind: Agg, out: Vec<Option<Ratio>>)
    requires
        r.wf(),
        r.rolls(kind, Ok(out)),
    ensures
        out.len() == r.spec_values().len(),
        forall|i: int| 0 <= i < r.spec_window() - 1 ==> (#[trigger] out@[i]) is None,
        forall|i: int| r.spec_window() - 1 <= i < out.len() ==> #[trigger] out@[i] == Some(
            agg_spec(kind, nums(r.spec_values().subrange(i + 1 - r.spec_window(), i + 1)))->Ok_0,
        ),
{
}

/// `keys[i]` occurs in `keys` before index `n`.
pub open spec fn occurs_before(keys: Seq<DataElement>, k: DataElement, n: int) -> bool {
    exists|i: int| 0 <= i < n && (#[trigger] keys[i]).same(&k)
}

proof fn lemma_same_eqv(a: DataElement, b: DataElement, c: DataElement)
    ensures
        a.same(&a),
        a.same(&b) ==> b.same(&a),
        a.same(&b) && b.same(&c) ==> a.same(&c),
{
}

proof fn lemma_occurs_extends(keys: Seq<DataElement>, k: DataElement, n: int)
    requires
        keys.len() > 0,
        0 <= n <= keys.len() - 1,
        occurs_before(keys.drop_last(), k, n),
    ensures
        occurs_before(keys, k, n),
{
    let i = choose|i: int| 0 <= i < n && (#[trigger] keys.drop_last()[i]).same(&k);
    assert(keys[i] == keys.drop_last()[i]);
}

proof fn lemma_dk_distinct(keys: Seq<DataElement>)
    ensures
        forall|j1: int, j2: int|
            #![trigger distinct_keys(keys)[j1], distinct_keys(keys)[j2]]
            0 <= j1 < j2 < distinct_keys(keys).len() ==>
            !distinct_keys(keys)[j1].same(&distinct_keys(keys)[j2]),
    decreases keys.len(),
{
    if keys.len() > 0 {
        let p = keys.drop_last();
        let k = keys.last();
        let dp = distinct_keys(p);
        let d = distinct_keys(keys);
        lemma_dk_distinct(p);
        if !has_key(dp, k) {
            assert(d == dp.push(k));
            assert forall|j1: int, j2: int|
                #![trigger d[j1], d[j2]]
                0 <= j1 < j2 < d.len() implies !d[j1].same(&d[j2]) by {
                if j2 == dp.len() {
                    assert(d[j1] == dp[j1]);
                    assert(d[j2] == k);
                } else {
                    assert(d[j1] == dp[j1]);
                    assert(d[j2] == dp[j2]);
                }
            }
        }
    }
}

proof fn lemma_dk_covers(keys: Seq<DataElement>)
    ensures
        forall|i: int| 0 <= i < keys.len() ==> has_key(distinct_keys(keys), #[trigger] keys[i]),
    decreases keys.len(),
{
    if keys.len() > 0 {
        let p = keys.drop_last();
        let k = keys.last();
        let dp = distinct_keys(p);
        let d = distinct_keys(keys);
        lemma_dk_covers(p);
        assert forall|i: int| 0 <= i < keys.len() implies has_key(d, #[trigger] keys[i]) by {
            if i < p.len() {
                assert(keys[i] == p[i]);
                assert(has_key(dp, p[i]));
                let j = choose|j: int| 0 <= j < dp.len() && (#[trigger] dp[j]).same(&p[i]);
                if !has_key(dp, k) {
                    assert(d[j] == dp[j]);
                }
            } else {
                lemma_same_eqv(k, k, k);
                if !has_key(dp, k) {
                    assert(d[dp.len() as int] == k);
                }
            }
        }
    }
}

proof fn lemma_dk_occurs(keys: Seq<DataElement>)
    ensures
        forall|j: int| 0 <= j < distinct_keys(keys).len() ==>
            occurs_before(keys, #[trigger] distinct_keys(keys)[j], keys.len() as int),
    decreases keys.len(),
{
    if keys.len() > 0 {
        let p = keys.drop_last();
        let k = keys.last();
        let dp = distinct_keys(p);
        let d = distinct_keys(keys);
        lemma_dk_occurs(p);
        assert forall|j: int| 0 <= j < d.len() implies
            occurs_before(keys, #[trigger] d[j], keys.len() as int) by {
            if j < dp.len() {
                assert(d[j] == dp[j]);
                assert(occurs_before(p, dp[j], p.len() as int));
                lemma_occurs_extends(keys, dp[j], p.len() as int);
            } else {
                lemma_same_eqv(k, k, k);
                assert(keys[keys.len() - 1].same(&d[j]));
            }
        }
    }
}

proof fn lemma_dk_order(keys: Seq<DataElement>)
    ensures
        forall|j1: int, j2: int, i2: int|
            #![trigger keys[i2], distinct_keys(keys)[j2], distinct_keys(keys)[j1]]
            0 <= j1 < j2 < distinct_keys(keys).len() && 0 <= i2 < keys.len()
                && keys[i2].same(&distinct_keys(keys)[j2])
                ==> occurs_before(keys, distinct_keys(keys)[j1], i2),
    decreases keys.len(),
{
    if keys.len() > 0 {
        let p = keys.drop_last();
        let k = keys.last();
        let dp = distinct_keys(p);
        let d = distinct_keys(keys);
        lemma_dk_order(p);
        lemma_dk_occurs(p);
        lemma_dk_covers(p);
        assert forall|j1: int, j2: int, i2: int|
            #![trigger keys[i2], d[j2], d[j1]]
            0 <= j1 < j2 < d.len() && 0 <= i2 < keys.len() && keys[i2].same(&d[j2])
                implies occurs_before(keys, d[j1], i2) by {
            assert(d[j1] == dp[j1]);
            if i2 < p.len() {
                assert(keys[i2] == p[i2]);
                if j2 < dp.len() {
                    assert(d[j2] == dp[j2]);
                    assert(occurs_before(p, dp[j1], i2));
                    lemma_occurs_extends(keys, dp[j1], i2);
                } else {
                    // The new key would already have had a match.
                    assert(d[j2] == k);
                    assert(has_key(dp, p[i2]));
                    let j = choose|j: int| 0 <= j < dp.len() && (#[trigger] dp[j]).same(&p[i2]);
                    lemma_same_eqv(dp[j], p[i2], k);
                    assert(has_key(dp, k));
                }
            } else {
                assert(occurs_before(p, dp[j1], p.len() as int));
                lemma_occurs_extends(keys, dp[j1], p.len() as int);
            }
        }
    }
}

/// The distinct keys hold each key once, every key has its match among
/// them, and they stand in order of first appearance: wherever the later of
/// two of them occurs, the earlier one has occurred before.
pub proof fn law_distinct_keys_first_appearance(keys: Seq<DataElement>)
    ensures
        forall|j1: int, j2: int|
            #![trigger distinct_keys(keys)[j1], distinct_keys(keys)[j2]]
            0 <= j1 < j2 < distinct_keys(keys).len() ==>
            !distinct_keys(keys)[j1].same(&distinct_keys(keys)[j2]),
        forall|i: int| 0 <= i < keys.len() ==> has_key(distinct_keys(keys), #[trigger] keys[i]),
        forall|j: int| 0 <= j < distinct_keys(keys).len() ==>
            occurs_before(keys, #[trigger] distinct_keys(keys)[j], keys.len() as int),
        forall|j1: int, j2: int, i2: int|
            #![trigger keys[i2], distinct_keys(keys)[j2], distinct_keys(keys)[j1]]
            0 <= j1 < j2 < distinct_keys(keys).len() && 0 <= i2 < keys.len()
                && keys[i2].same(&distinct_keys(keys)[j2])
                ==> occurs_before(keys, distinct_keys(keys)[j1], i2),
{
    lemma_dk_distinct(keys);
    lemma_dk_covers(keys);
    lemma_dk_occurs(keys);
    lemma_dk_order(keys);
}

} // verus!
