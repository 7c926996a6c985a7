use vstd::prelude::*;
use crate::aggregate::{Agg, agg_spec, aggregate, eligible_values, nums};
use crate::dtype::SeriesError;
use crate::element::DataElement;
use crate::ratio::Ratio;
use crate::series::Series;

verus! {

/// `k` is equal to some key in `p`.
pub open spec fn has_key(p: Seq<DataElement>, k: DataElement) -> bool {
    exists|j: int| 0 <= j < p.len() && (#[trigger] p[j]).same(&k)
}

/// The distinct keys, in order of first appearance.
pub open spec fn distinct_keys(keys: Seq<DataElement>) -> Seq<DataElement>
    decreases keys.len(),
{
    if keys.len() == 0 {
        Seq::empty()
    } else {
        let p = distinct_keys(keys.drop_last());
        if has_key(p, keys.last()) {
            p
        } else {
            p.push(keys.last())
        }
    }
}

/// The values whose key equals `key`, in order.
pub open spec fn group_of(vals: Seq<DataElement>, keys: Seq<DataElement>, key: DataElement) -> Seq<
    DataElement,
>
    decreases vals.len(),
{
    if vals.len() == 0 || keys.len() == 0 {
        Seq::empty()
    } else {
        let p = group_of(vals.drop_last(), keys.drop_last(), key);
        if keys.last().same(&key) {
            p.push(vals.last())
        } else {
            p
        }
    }
}

/// The reduction of the group of the `j`-th distinct key.
pub open spec fn group_result(vals: Seq<DataElement>, keys: Seq<DataElement>, kind: Agg, j: int) -> Result<
    Ratio,
    SeriesError,
> {
    agg_spec(kind, nums(group_of(vals, keys, distinct_keys(keys)[j])))
}

/// The error of the first group, among the first `k`, whose reduction fails.
pub open spec fn first_group_error(vals: Seq<DataElement>, keys: Seq<DataElement>, kind: Agg, k: int) -> Option<
    SeriesError,
>
    decreases k,
{
    if k <= 0 {
        None
    } else {
        match first_group_error(vals, keys, kind, k - 1) {
            Some(e) => Some(e),
            None => match group_result(vals, keys, kind, k - 1) {
                Err(e) => Some(e),
                Ok(_) => None,
            },
        }
    }
}

proof fn lemma_first_group_error_stays(
    vals: Seq<DataElement>,
    keys: Seq<DataElement>,
    kind: Agg,
    k: int,
    m: int,
)
    requires
        k <= m,
        first_group_error(vals, keys, kind, k) is Some,
    ensures
        first_group_error(vals, keys, kind, m) == first_group_error(vals, keys, kind, k),
    decreases m - k,
{
    if k < m {
        lemma_first_group_error_stays(vals, keys, kind, k, m - 1);
    }
}

/// The distinct keys of `keys`, in order of first appearance.
pub fn unique_keys(keys: &Vec<DataElement>) -> (r: Vec<DataElement>)
    ensures
        r@ == distinct_keys(keys@),
{
    let mut dk: Vec<DataElement> = Vec::new();
    let mut i: usize = 0;
    while i < keys.len()
        invariant
            i <= keys.len(),
            dk@ == distinct_keys(keys@.subrange(0, i as int)),
        decreases keys.len() - i,
    {
        assert(keys@.subrange(0, i as int + 1).drop_last() == keys@.subrange(0, i as int));
        let mut found = false;
        let mut j: usize = 0;
        while j < dk.len()
            invariant
                j <= dk.len(),
                i < keys.len(),
                found == exists|t: int| 0 <= t < j && (#[trigger] dk@[t]).same(&keys@[i as int]),
            decreases dk.len() - j,
        {
            if dk[j].eq(&keys[i]) {
                found = true;
            }
            j = j + 1;
        }
        if !found {
            dk.push(keys[i].clone());
        }
        i = i + 1;
    }
    assert(keys@.subrange(0, keys.len() as int) == keys@);
    dk
}

/// The values whose key equals `key`.
fn collect_group(vals: &Vec<DataElement>, keys: &Vec<DataElement>, key: &DataElement) -> (r: Vec<
    DataElement,
>)
    requires
        vals.len() == keys.len(),
    ensures
        r@ == group_of(vals@, keys@, *key),
{
    let mut g: Vec<DataElement> = Vec::new();
    let mut i: usize = 0;
    while i < vals.len()
        invariant
            i <= vals.len() == keys.len(),
            g@ == group_of(vals@.subrange(0, i as int), keys@.subrange(0, i as int), *key),
        decreases vals.len() - i,
    {
        assert(vals@.subrange(0, i as int + 1).drop_last() == vals@.subrange(0, i as int));
        assert(keys@.subrange(0, i as int + 1).drop_last() == keys@.subrange(0, i as int));
        if keys[i].eq(key) {
            g.push(vals[i].clone());
        }
        i = i + 1;
    }
    assert(vals@.subrange(0, vals.len() as int) == vals@);
    assert(keys@.subrange(0, keys.len() as int) == keys@);
    g
}

/// A series split by a parallel series of keys.
pub struct GroupBy<'a> {
    series: &'a Series,
    keys: &'a Series,
}

impl<'a> GroupBy<'a> {
    pub closed spec fn spec_values(&self) -> Seq<DataElement> {
        self.series.spec_values()
    }

    pub closed spec fn spec_keys(&self) -> Seq<DataElement> {
        self.keys.spec_values()
    }

    /// The contract of every grouped reduction: a shape error when the keys
    /// do not match the values one for one, else the first failing group's
    /// error, else one result per distinct key, in order of first appearance.
    pub open spec fn groups(&self, kind: Agg, r: Result<Vec<Ratio>, SeriesError>) -> bool {
        let v = self.spec_values();
        let k = self.spec_keys();
        let n = distinct_keys(k).len() as int;
        if v.len() != k.len() {
            r == Err::<Vec<Ratio>, SeriesError>(SeriesError::ShapeMismatch)
        } else {
            match first_group_error(v, k, kind, n) {
                Some(e) => r == Err::<Vec<Ratio>, SeriesError>(e),
                None => r is Ok && r->Ok_0.len() == n && forall|j: int|
                    0 <= j < n ==> #[trigger] r->Ok_0@[j] == group_result(v, k, kind, j)->Ok_0,
            }
        }
    }

    fn apply(&self, kind: Agg) -> (r: Result<Vec<Ratio>, SeriesError>)
        ensures
            self.groups(kind, r),
    {
        let v = self.series.values();
        let k = self.keys.values();
        if v.len() != k.len() {
            return Err(SeriesError::ShapeMismatch);
        }
        let dk = unique_keys(k);
        let mut out: Vec<Ratio> = Vec::new();
        let mut j: usize = 0;
        while j < dk.len()
            invariant
                v@ == self.spec_values(),
                k@ == self.spec_keys(),
                v.len() == k.len(),
                dk@ == distinct_keys(k@),
                j <= dk.len(),
                out.len() == j,
                first_group_error(v@, k@, kind, j as int) is None,
                forall|t: int| 0 <= t < j ==> #[trigger] out@[t] == group_result(v@, k@, kind, t)->Ok_0,
            decreases dk.len() - j,
        {
            let g = collect_group(v, k, &dk[j]);
            let xs = eligible_values(&g, 0, g.len());
            assert(g@.subrange(0, g.len() as int) == g@);
            match aggregate(&xs, kind) {
                Err(e) => {
                    proof {
                        assert(first_group_error(v@, k@, kind, j as int + 1) == Some(e));
                        lemma_first_group_error_stays(v@, k@, kind, j as int + 1, dk.len() as int);
                    }
                    return Err(e);
                },
                Ok(a) => out.push(a),
            }
            j = j + 1;
        }
        Ok(out)
    }

    /// Float elements are read as their values truncated toward zero.
    pub fn sum(&self) -> (r: Result<Vec<Ratio>, SeriesError>)
        ensures
            self.groups(Agg::Sum, r),
    {
        self.apply(Agg::Sum)
    }

    /// Float elements are read as their values truncated toward zero.
    pub fn mean(&self) -> (r: Result<Vec<Ratio>, SeriesError>)
        ensures
            self.groups(Agg::Mean, r),
    {
        self.apply(Agg::Mean)
    }

    /// Float elements are read as their values truncated toward zero.
    pub fn min(&self) -> (r: Result<Vec<Ratio>, SeriesError>)
        ensures
            self.groups(Agg::Min, r),
    {
        self.apply(Agg::Min)
    }

    /// Float elements are read as their values truncated toward zero.
    pub fn max(&self) -> (r: Result<Vec<Ratio>, SeriesError>)
        ensures
            self.groups(Agg::Max, r),
    {
        self.apply(Agg::Max)
    }

    /// Float elements are read as their values truncated toward zero.
    pub fn var(&self, ddof: u64) -> (r: Result<Vec<Ratio>, SeriesError>)
        ensures
            self.groups(Agg::Var(ddof), r),
    {
        self.apply(Agg::Var(ddof))
    }
}

impl Series {
    /// Groups this series by `keys`, element `i` under key `i`.
    pub fn groupby<'a>(&'a self, keys: &'a Series) -> (r: GroupBy<'a>)
        ensures
            r.spec_values() == self.spec_values(),
            r.spec_keys() == keys.spec_values(),
    {
        GroupBy { series: self, keys }
    }
}

} // verus!
