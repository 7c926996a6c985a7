use vstd::prelude::*;
use crate::dtype::{DType, SeriesError};
use crate::element::DataElement;
use crate::series::{F64_NAN, Series, is_float, uniform_tag};

verus! {

/// An elementwise arithmetic operator.
#[derive(Debug, Clone, Copy, PartialEq, Eq, Structural)]
pub enum ArithOp {
    Add,
    Sub,
    Mul,
    Div,
}

/// Division rounded toward zero.
pub open spec fn trunc_div(x: int, d: int) -> int {
    let q = (if x < 0 { -x } else { x }) / (if d < 0 { -d } else { d });
    if (x < 0) != (d < 0) { -q } else { q }
}

/// The exact result of `x op y`; none for a division by zero.
pub open spec fn op_value(op: ArithOp, x: int, y: int) -> Option<int> {
    match op {
        ArithOp::Add => Some(x + y),
        ArithOp::Sub => Some(x - y),
        ArithOp::Mul => Some(x * y),
        ArithOp::Div => if y == 0 { None } else { Some(trunc_div(x, y)) },
    }
}

/// The result of `a op b` on two elements. A missing element counts as
/// zero. Text fails with `TypeCoercion`; a NaN operand gives NaN. Other float
/// operands need float arithmetic, which is left to callers: they fail with
/// `Conversion`, as do a division by zero and an integer result outside `i64`.
pub open spec fn pair_result(op: ArithOp, a: DataElement, b: DataElement) -> Result<
    DataElement,
    SeriesError,
> {
    if a.spec_dtype() == DType::STRING || b.spec_dtype() == DType::STRING {
        Err(SeriesError::TypeCoercion)
    } else if a.spec_is_nan() || b.spec_is_nan() {
        Ok(DataElement::F64(F64_NAN))
    } else if is_float(a.spec_dtype()) || is_float(b.spec_dtype()) {
        Err(SeriesError::Conversion)
    } else {
        match op_value(op, a.int_value(), b.int_value()) {
            None => Err(SeriesError::Conversion),
            Some(v) => if i64::MIN <= v <= i64::MAX {
                Ok(DataElement::I64(v as i64))
            } else {
                Err(SeriesError::Conversion)
            },
        }
    }
}

/// The first failing pair among the first `k` positions.
pub open spec fn first_pair_error(op: ArithOp, a: Seq<DataElement>, b: Seq<DataElement>, k: int) -> Option<
    SeriesError,
>
    decreases k,
{
    if k <= 0 {
        None
    } else {
        match first_pair_error(op, a, b, k - 1) {
            Some(e) => Some(e),
            None => match pair_result(op, a[k - 1], b[k - 1]) {
                Err(e) => Some(e),
                Ok(_) => None,
            },
        }
    }
}

proof fn lemma_first_pair_error_stays(
    op: ArithOp,
    a: Seq<DataElement>,
    b: Seq<DataElement>,
    k: int,
    m: int,
)
    requires
        k <= m,
        first_pair_error(op, a, b, k) is Some,
    ensures
        first_pair_error(op, a, b, m) == first_pair_error(op, a, b, k),
    decreases m - k,
{
    if k < m {
        lemma_first_pair_error_stays(op, a, b, k, m - 1);
    }
}

/// `out` holds the result at each position.
pub open spec fn combined(op: ArithOp, a: Seq<DataElement>, b: Seq<DataElement>, out: Seq<DataElement>) -> bool {
    &&& out.len() == a.len()
    &&& forall|i: int| 0 <= i < a.len() ==>
        #[trigger] out[i] == pair_result(op, a[i], b[i])->Ok_0
}

/// A sequence of `n` copies of `x`.
pub open spec fn repeated(x: DataElement, n: nat) -> Seq<DataElement> {
    Seq::new(n, |i: int| x)
}

fn apply_op(op: ArithOp, x: i64, y: i64) -> (r: Option<i64>)
    ensures
        match op_value(op, x as int, y as int) {
            None => r is None,
            Some(v) => if i64::MIN <= v <= i64::MAX { r == Some(v as i64) } else { r is None },
        },
{
    match op {
        ArithOp::Add => x.checked_add(y),
        ArithOp::Sub => x.checked_sub(y),
        ArithOp::Mul => x.checked_mul(y),
        ArithOp::Div => {
            proof {
                let a = x as int;
                let d = y as int;
                if d != 0 && a != 0 {
                    if a > 0 && d > 0 {
                    } else if a < 0 && d < 0 {
                        assert((a * -1) == -a && (d * -1) == -d);
                    } else if a < 0 {
                        assert(((-a) / d) * -1 == -((-a) / d));
                    } else {
                        assert((a / (d * -1)) * -1 == -(a / (-d)));
                    }
                }
            }
            x.checked_div(y)
        },
    }
}

/// The result of one pair of elements.
fn pair(op: ArithOp, a: &DataElement, b: &DataElement) -> (r: Result<DataElement, SeriesError>)
    ensures
        r == pair_result(op, *a, *b),
{
    let da = a.dtype();
    let db = b.dtype();
    if matches!(da, DType::STRING) || matches!(db, DType::STRING) {
        return Err(SeriesError::TypeCoercion);
    }
    if a.is_nan() || b.is_nan() {
        return Ok(DataElement::F64(F64_NAN));
    }
    if matches!(da, DType::F32) || matches!(da, DType::F64) || matches!(db, DType::F32)
        || matches!(db, DType::F64) {
        return Err(SeriesError::Conversion);
    }
    match apply_op(op, a.to_i64(), b.to_i64()) {
        Some(v) => Ok(DataElement::I64(v)),
        None => Err(SeriesError::Conversion),
    }
}

/// Combines `a` and `b` position by position; stops at the first failure.
fn combine(op: ArithOp, a: &Vec<DataElement>, b: &Vec<DataElement>) -> (r: Result<
    Vec<DataElement>,
    SeriesError,
>)
    requires
        a.len() == b.len(),
    ensures
        match first_pair_error(op, a@, b@, a.len() as int) {
            Some(e) => r == Err::<Vec<DataElement>, SeriesError>(e),
            None => r is Ok && combined(op, a@, b@, r->Ok_0@),
        },
{
    let mut out: Vec<DataElement> = Vec::new();
    let mut i: usize = 0;
    while i < a.len()
        invariant
            a.len() == b.len(),
            i <= a.len(),
            out.len() == i,
            first_pair_error(op, a@, b@, i as int) is None,
            forall|k: int| 0 <= k < i ==>
                #[trigger] out@[k] == pair_result(op, a@[k], b@[k])->Ok_0,
        decreases a.len() - i,
    {
        match pair(op, &a[i], &b[i]) {
            Err(e) => {
                proof {
                    assert(first_pair_error(op, a@, b@, i as int + 1) == Some(e));
                    lemma_first_pair_error_stays(op, a@, b@, i as int + 1, a.len() as int);
                }
                return Err(e);
            },
            Ok(v) => out.push(v),
        }
        i = i + 1;
    }
    Ok(out)
}

impl Series {
    /// `self op other`, position by position; the series must have equal
    /// lengths. The result is typed with the tag its elements share.
    pub fn binary(&self, other: &Series, op: ArithOp) -> (r: Result<Series, SeriesError>)
        ensures
            self.spec_len() != other.spec_len() ==> r == Err::<Series, SeriesError>(
                SeriesError::ShapeMismatch,
            ),
            self.spec_len() == other.spec_len() ==> match first_pair_error(
                op,
                self.spec_values(),
                other.spec_values(),
                self.spec_len() as int,
            ) {
                Some(e) => r == Err::<Series, SeriesError>(e),
                None => r is Ok && r->Ok_0.wf() && r->Ok_0.spec_dtype() == uniform_tag(
                    r->Ok_0.spec_values(),
                ) && combined(
                    op,
                    self.spec_values(),
                    other.spec_values(),
                    r->Ok_0.spec_values(),
                ),
            },
    {
        if self.len() != other.len() {
            return Err(SeriesError::ShapeMismatch);
        }
        match combine(op, self.values(), other.values()) {
            Err(e) => Err(e),
            Ok(out) => {
                Ok(Series::from_elements_uniform(out))
            },
        }
    }

    /// `self op x` at every position, typed with the tag the results share.
    pub fn scalar(&self, x: i64, op: ArithOp) -> (r: Result<Series, SeriesError>)
        ensures
            ({
                let b = repeated(DataElement::I64(x), self.spec_len());
                match first_pair_error(op, self.spec_values(), b, self.spec_len() as int) {
                    Some(e) => r == Err::<Series, SeriesError>(e),
                    None => r is Ok && r->Ok_0.wf() && r->Ok_0.spec_dtype() == uniform_tag(
                    r->Ok_0.spec_values(),
                ) && combined(
                        op,
                        self.spec_values(),
                        b,
                        r->Ok_0.spec_values(),
                    ),
                }
            }),
    {
        let mut b: Vec<DataElement> = Vec::new();
        let mut i: usize = 0;
        while i < self.len()
            invariant
                i <= self.spec_len(),
                b@ == repeated(DataElement::I64(x), i as nat),
            decreases self.spec_len() - i,
        {
            b.push(DataElement::I64(x));
            i = i + 1;
        }
        match combine(op, self.values(), &b) {
            Err(e) => Err(e),
            Ok(out) => {
                Ok(Series::from_elements_uniform(out))
            },
        }
    }

    /// `self op= other` in place; on failure `self` is unchanged.
    pub fn binary_assign(&mut self, other: &Series, op: ArithOp) -> (r: Result<(), SeriesError>)
        requires
            old(self).wf(),
        ensures
            final(self).wf(),
            old(self).spec_len() != other.spec_len() ==> r == Err::<(), SeriesError>(
                SeriesError::ShapeMismatch,
            ) && *final(self) == *old(self),
            old(self).spec_len() == other.spec_len() ==> match first_pair_error(
                op,
                old(self).spec_values(),
                other.spec_values(),
                old(self).spec_len() as int,
            ) {
                Some(e) => r == Err::<(), SeriesError>(e) && *final(self) == *old(self),
                None => r is Ok && final(self).spec_dtype() == uniform_tag(final(self).spec_values())
                    && final(self).spec_name() == old(self).spec_name() && combined(
                    op,
                    old(self).spec_values(),
                    other.spec_values(),
                    final(self).spec_values(),
                ),
            },
    {
        if self.len() != other.len() {
            return Err(SeriesError::ShapeMismatch);
        }
        match combine(op, self.values(), other.values()) {
            Err(e) => Err(e),
            Ok(out) => {
                self.replace_values_uniform(out);
                Ok(())
            },
        }
    }

    /// `self op= x` at every position, in place; on failure `self` is unchanged.
    pub fn scalar_assign(&mut self, x: i64, op: ArithOp) -> (r: Result<(), SeriesError>)
        requires
            old(self).wf(),
        ensures
            final(self).wf(),
            ({
                let b = repeated(DataElement::I64(x), old(self).spec_len());
                match first_pair_error(op, old(self).spec_values(), b, old(self).spec_len() as int) {
                    Some(e) => r == Err::<(), SeriesError>(e) && *final(self) == *old(self),
                    None => r is Ok && final(self).spec_dtype() == uniform_tag(final(self).spec_values())
                        && final(self).spec_name() == old(self).spec_name() && combined(
                        op,
                        old(self).spec_values(),
                        b,
                        final(self).spec_values(),
                    ),
                }
            }),
    {
        match self.scalar(x, op) {
            Err(e) => Err(e),
            Ok(out) => {
                let vals = out.values().clone();
                assert(vals@ == out.spec_values());
                self.replace_values_uniform(vals);
                Ok(())
            },
        }
    }
}

} // verus!
