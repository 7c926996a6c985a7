use vstd::prelude::*;
use crate::aggregate::{Agg, agg_spec, aggregate, eligible_values, nums};
use crate::dtype::SeriesError;
use crate::element::DataElement;
use crate::ratio::Ratio;
use crate::series::Series;

verus! {

/// The eligible values of the window of `w` elements that ends at index `i`.
pub open spec fn window_nums(s: Seq<DataElement>, w: int, i: int) -> Seq<int> {
    nums(s.subrange(i + 1 - w, i + 1))
}

/// The error of the first window, among those ending before index `k`,
/// whose reduction fails.
pub open spec fn first_window_error(s: Seq<DataElement>, w: int, kind: Agg, k: int) -> Option<
    SeriesError,
>
    decreases k,
{
    if k <= 0 || k < w {
        None
    } else {
        match first_window_error(s, w, kind, k - 1) {
            Some(e) => Some(e),
            None => match agg_spec(kind, window_nums(s, w, k - 1)) {
                Err(e) => Some(e),
                Ok(_) => None,
            },
        }
    }
}

/// `out` is the rolled series: no value before the first full window, then
/// the reduction of each window.
pub open spec fn rolled(s: Seq<DataElement>, w: int, kind: Agg, out: Seq<Option<Ratio>>) -> bool {
    &&& out.len() == s.len()
    &&& forall|i: int| 0 <= i < out.len() ==> #[trigger] out[i] == if i < w - 1 {
        None
    } else {
        Some(agg_spec(kind, window_nums(s, w, i))->Ok_0)
    }
}

proof fn lemma_first_error_stays(s: Seq<DataElement>, w: int, kind: Agg, k: int, m: int)
    requires
        k <= m,
        first_window_error(s, w, kind, k) is Some,
    ensures
        first_window_error(s, w, kind, m) == first_window_error(s, w, kind, k),
    decreases m - k,
{
    if k < m {
        lemma_first_error_stays(s, w, kind, k, m - 1);
    }
}

/// Sliding-window reductions over a series.
pub struct Rolling<'a> {
    window: usize,
    series: &'a Series,
}

impl<'a> Rolling<'a> {
    pub closed spec fn spec_window(&self) -> int {
        self.window as int
    }

    pub closed spec fn spec_values(&self) -> Seq<DataElement> {
        self.series.spec_values()
    }

    /// A roller with windows of `window` elements; `1 <= window <= len`.
    pub fn new(window: usize, series: &'a Series) -> (r: Rolling<'a>)
        requires
            1 <= window <= series.spec_len(),
        ensures
            r.spec_window() == window,
            r.spec_values() == series.spec_values(),
            r.wf(),
    {
        Rolling { window, series }
    }

    pub open spec fn wf(&self) -> bool {
        1 <= self.spec_window() <= self.spec_values().len()
    }

    /// The contract that every rolling reduction meets.
    pub open spec fn rolls(&self, kind: Agg, r: Result<Vec<Option<Ratio>>, SeriesError>) -> bool {
        let s = self.spec_values();
        let w = self.spec_window();
        match first_window_error(s, w, kind, s.len() as int) {
            Some(e) => r == Err::<Vec<Option<Ratio>>, SeriesError>(e),
            None => r is Ok && rolled(s, w, kind, r->Ok_0@),
        }
    }

    fn roll(&self, kind: Agg) -> (r: Result<Vec<Option<Ratio>>, SeriesError>)
        requires
            self.wf(),
        ensures
            self.rolls(kind, r),
    {
        let v = self.series.values();
        let w = self.window;
        let ghost s = v@;
        let mut out: Vec<Option<Ratio>> = Vec::new();
        let mut i: usize = 0;
        while i < w - 1
            invariant
                1 <= w <= v.len(),
                i <= w - 1,
                out.len() == i,
                forall|k: int| 0 <= k < i ==> out@[k] is None,
            decreases w - 1 - i,
        {
            out.push(None);
            i = i + 1;
        }
        while i < v.len()
            invariant
                s == v@,
                s == self.spec_values(),
                w == self.spec_window(),
                1 <= w <= v.len(),
                w - 1 <= i <= v.len(),
                out.len() == i,
                first_window_error(s, w as int, kind, i as int) is None,
                forall|k: int| 0 <= k < i ==> #[trigger] out@[k] == if k < w - 1 {
                    None
                } else {
                    Some(agg_spec(kind, window_nums(s, w as int, k))->Ok_0)
                },
            decreases v.len() - i,
        {
            let xs = eligible_values(v, i + 1 - w, i + 1);
            assert(crate::aggregate::ints(xs@) == window_nums(s, w as int, i as int));
            match aggregate(&xs, kind) {
                Err(e) => {
                    proof {
                        assert(agg_spec(kind, window_nums(s, w as int, i as int)) == Err::<Ratio, SeriesError>(e));
                        assert(first_window_error(s, w as int, kind, i as int + 1) == Some(e));
                        lemma_first_error_stays(s, w as int, kind, i as int + 1, s.len() as int);
                    }
                    return Err(e);
                },
                Ok(a) => {
                    out.push(Some(a));
                },
            }
            i = i + 1;
        }
        Ok(out)
    }

    /// Rolling sum of the eligible values of each window.
    /// Float elements are read as their values truncated toward zero.
    pub fn sum(&self) -> (r: Result<Vec<Option<Ratio>>, SeriesError>)
        requires
            self.wf(),
        ensures
            self.rolls(Agg::Sum, r),
    {
        self.roll(Agg::Sum)
    }

    /// Rolling mean; fails where a window holds no eligible value.
    /// Float elements are read as their values truncated toward zero.
    pub fn mean(&self) -> (r: Result<Vec<Option<Ratio>>, SeriesError>)
        requires
            self.wf(),
        ensures
            self.rolls(Agg::Mean, r),
    {
        self.roll(Agg::Mean)
    }

    /// Rolling variance with `ddof` degrees of freedom taken off.
    /// Float elements are read as their values truncated toward zero.
    pub fn var(&self, ddof: u64) -> (r: Result<Vec<Option<Ratio>>, SeriesError>)
        requires
            self.wf(),
        ensures
            self.rolls(Agg::Var(ddof), r),
    {
        self.roll(Agg::Var(ddof))
    }

    /// Float elements are read as their values truncated toward zero.
    pub fn median(&self) -> (r: Result<Vec<Option<Ratio>>, SeriesError>)
        requires
            self.wf(),
        ensures
            self.rolls(Agg::Median, r),
    {
        self.roll(Agg::Median)
    }

    /// Float elements are read as their values truncated toward zero.
    pub fn min(&self) -> (r: Result<Vec<Option<Ratio>>, SeriesError>)
        requires
            self.wf(),
        ensures
            self.rolls(Agg::Min, r),
    {
        self.roll(Agg::Min)
    }

    /// Float elements are read as their values truncated toward zero.
    pub fn max(&self) -> (r: Result<Vec<Option<Ratio>>, SeriesError>)
        requires
            self.wf(),
        ensures
            self.rolls(Agg::Max, r),
    {
        self.roll(Agg::Max)
    }
}

impl Series {
    /// Windows of `window` elements over this series.
    pub fn rolling(&self, window: usize) -> (r: Rolling<'_>)
        requires
            1 <= window <= self.spec_len(),
        ensures
            r.wf(),
            r.spec_window() == window,
            r.spec_values() == self.spec_values(),
    {
        Rolling::new(window, self)
    }
}

} // verus!
