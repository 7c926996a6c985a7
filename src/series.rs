use vstd::prelude::*;
use crate::dtype::{DType, SeriesError};
use crate::element::DataElement;
use crate::floatbits::{int_float_bits, int_to_float_bits, narrow, narrow_bits, widen, widen_bits};

verus! {

/// The canonical quiet NaN of each float width.
pub const F64_NAN: u64 = 0x7ff8000000000000;
pub const F32_NAN: u32 = 0x7fc00000;

/// Every element's natural type tag is `d`.
pub open spec fn all_of_dtype(s: Seq<DataElement>, d: DType) -> bool {
    forall|i: int| 0 <= i < s.len() ==> (#[trigger] s[i]).spec_dtype() == d
}

/// The tag that all elements share, if they share one and there is any.
pub open spec fn uniform_tag(s: Seq<DataElement>) -> Option<DType> {
    if s.len() > 0 && all_of_dtype(s, s[0].spec_dtype()) {
        Some(s[0].spec_dtype())
    } else {
        None
    }
}

/// Finds the tag that all elements share.
fn find_uniform_tag(v: &Vec<DataElement>) -> (r: Option<DType>)
    ensures
        r == uniform_tag(v@),
{
    if v.len() == 0 {
        return None;
    }
    let d = v[0].dtype();
    let mut i: usize = 1;
    while i < v.len()
        invariant
            1 <= i <= v.len(),
            d == v@[0].spec_dtype(),
            forall|k: int| 0 <= k < i ==> (#[trigger] v@[k]).spec_dtype() == d,
        decreases v.len() - i,
    {
        if v[i].dtype() != d {
            return None;
        }
        i = i + 1;
    }
    Some(d)
}

/// Element-wise equality of two element sequences.
pub open spec fn same_seq(a: Seq<DataElement>, b: Seq<DataElement>) -> bool {
    a.len() == b.len() && forall|i: int| 0 <= i < a.len() ==> (#[trigger] a[i]).same(&b[i])
}

pub open spec fn is_float(d: DType) -> bool {
    d == DType::F32 || d == DType::F64
}

/// Coercing `e` to `t` fails: text or NaN into an integer type fails with
/// `TypeCoercion`. Parsing text as a float and writing a float as text are
/// left to callers (they need float formatting): both fail with `Conversion`.
pub open spec fn coerce_error(e: DataElement, t: DType) -> Option<SeriesError> {
    let d = e.spec_dtype();
    if (t == DType::I32 || t == DType::I64) && (d == DType::STRING || e.spec_is_nan()) {
        Some(SeriesError::TypeCoercion)
    } else if t == DType::STRING && is_float(d) {
        Some(SeriesError::Conversion)
    } else if is_float(t) && d == DType::STRING {
        Some(SeriesError::Conversion)
    } else {
        None
    }
}

pub open spec fn clamp_i32(x: int) -> int {
    if x < i32::MIN { i32::MIN as int } else if x > i32::MAX { i32::MAX as int } else { x }
}

/// `out` is what coercing `e` to `t` gives, where that does not fail.
/// Numeric casts act as Rust's `as` does: floats truncate (saturating) into
/// integers, integers round to the nearest float, floats change width with
/// rounding; NaN and a missing element become NaN.
pub open spec fn coerced(e: DataElement, t: DType, out: DataElement) -> bool {
    match t {
        DType::Missing => out == DataElement::Missing,
        DType::I64 => out == DataElement::I64(e.int_value() as i64),
        DType::I32 => match e {
            DataElement::I64(v) => out == DataElement::I32(v as i32),
            _ => out == DataElement::I32(clamp_i32(e.int_value()) as i32),
        },
        DType::STRING => match out {
            DataElement::STRING(s) => s@ == e.text_value(),
            _ => false,
        },
        DType::F64 => match e {
            DataElement::F64(b) => out == e,
            DataElement::I32(v) => out == DataElement::F64(int_float_bits(v as int, 53, 1023, 64) as u64),
            DataElement::I64(v) => out == DataElement::F64(int_float_bits(v as int, 53, 1023, 64) as u64),
            DataElement::F32(b) => if e.spec_is_nan() {
                out == DataElement::F64(F64_NAN)
            } else {
                out == DataElement::F64(widen_bits(b) as u64)
            },
            _ => out == DataElement::F64(F64_NAN),
        },
        DType::F32 => match e {
            DataElement::F32(b) => out == e,
            DataElement::I32(v) => out == DataElement::F32(int_float_bits(v as int, 24, 127, 32) as u32),
            DataElement::I64(v) => out == DataElement::F32(int_float_bits(v as int, 24, 127, 32) as u32),
            DataElement::F64(b) => if e.spec_is_nan() {
                out == DataElement::F32(F32_NAN)
            } else {
                out == DataElement::F32(narrow_bits(b) as u32)
            },
            _ => out == DataElement::F32(F32_NAN),
        },
    }
}

/// The first failure, front to back, in coercing all of `s` to `t`.
pub open spec fn first_coerce_error(s: Seq<DataElement>, t: DType) -> Option<SeriesError>
    decreases s.len(),
{
    if s.len() == 0 {
        None
    } else {
        match first_coerce_error(s.drop_last(), t) {
            Some(err) => Some(err),
            None => coerce_error(s.last(), t),
        }
    }
}

/// Converts one element whose coercion does not fail.
fn coerce_one(e: &DataElement, t: DType) -> (r: DataElement)
    requires
        coerce_error(*e, t).is_none(),
    ensures
        coerced(*e, t, r),
{
    match t {
        DType::Missing => DataElement::Missing,
        DType::I64 => DataElement::I64(e.to_i64()),
        DType::I32 => match e {
            DataElement::I64(v) => DataElement::I32(*v as i32),
            _ => {
                let x = e.to_i64();
                if x < i32::MIN as i64 {
                    DataElement::I32(i32::MIN)
                } else if x > i32::MAX as i64 {
                    DataElement::I32(i32::MAX)
                } else {
                    DataElement::I32(x as i32)
                }
            },
        },
        DType::STRING => DataElement::STRING(e.to_text()),
        DType::F64 => match e {
            DataElement::F64(b) => DataElement::F64(*b),
            DataElement::I32(v) => DataElement::F64(int_to_float_bits(*v as i64, 53, 1023, 64)),
            DataElement::I64(v) => DataElement::F64(int_to_float_bits(*v, 53, 1023, 64)),
            DataElement::F32(b) => if e.is_nan() {
                DataElement::F64(F64_NAN)
            } else {
                DataElement::F64(widen(*b))
            },
            _ => DataElement::F64(F64_NAN),
        },
        DType::F32 => match e {
            DataElement::F32(b) => DataElement::F32(*b),
            DataElement::I32(v) => {
                let r = int_to_float_bits(*v as i64, 24, 127, 32);
                proof { vstd::arithmetic::power2::lemma2_to64(); }
                DataElement::F32(r as u32)
            },
            DataElement::I64(v) => {
                let r = int_to_float_bits(*v, 24, 127, 32);
                proof { vstd::arithmetic::power2::lemma2_to64(); }
                DataElement::F32(r as u32)
            },
            DataElement::F64(b) => if e.is_nan() {
                DataElement::F32(F32_NAN)
            } else {
                DataElement::F32(narrow(*b))
            },
            _ => DataElement::F32(F32_NAN),
        },
    }
}

/// Finds the first failing coercion in `s`, if any.
fn check_coercion(s: &Vec<DataElement>, t: DType) -> (r: Option<SeriesError>)
    ensures
        r == first_coerce_error(s@, t),
{
    let mut i: usize = 0;
    while i < s.len()
        invariant
            i <= s.len(),
            first_coerce_error(s@.subrange(0, i as int), t).is_none(),
        decreases s.len() - i,
    {
        assert(s@.subrange(0, i as int + 1).drop_last() == s@.subrange(0, i as int));
        let d = s[i].dtype();
        let nan = s[i].is_nan();
        if (matches!(t, DType::I32) || matches!(t, DType::I64))
            && (matches!(d, DType::STRING) || nan) {
            proof { lemma_first_error_extends(s@, i as int, t); }
            return Some(SeriesError::TypeCoercion);
        }
        let float_t = matches!(t, DType::F32) || matches!(t, DType::F64);
        let float_d = matches!(d, DType::F32) || matches!(d, DType::F64);
        if matches!(t, DType::STRING) && float_d {
            proof { lemma_first_error_extends(s@, i as int, t); }
            return Some(SeriesError::Conversion);
        }
        if float_t && matches!(d, DType::STRING) {
            proof { lemma_first_error_extends(s@, i as int, t); }
            return Some(SeriesError::Conversion);
        }
        i = i + 1;
    }
    assert(s@.subrange(0, s.len() as int) == s@);
    None
}

/// A failure found at index `i`, with none before it, is the first failure.
proof fn lemma_first_error_extends(s: Seq<DataElement>, i: int, t: DType)
    requires
        0 <= i < s.len(),
        first_coerce_error(s.subrange(0, i), t).is_none(),
        coerce_error(s[i], t).is_some(),
    ensures
        first_coerce_error(s, t) == coerce_error(s[i], t),
    decreases s.len() - i,
{
    if i == s.len() - 1 {
        assert(s.drop_last() == s.subrange(0, i));
    } else {
        assert(s.drop_last().subrange(0, i) == s.subrange(0, i));
        lemma_first_error_extends(s.drop_last(), i, t);
    }
}

/// Without a failure in `s`, none of its elements fails.
proof fn lemma_no_error_each(s: Seq<DataElement>, t: DType)
    requires
        first_coerce_error(s, t).is_none(),
    ensures
        forall|i: int| 0 <= i < s.len() ==> coerce_error(#[trigger] s[i], t).is_none(),
    decreases s.len(),
{
    if s.len() > 0 {
        lemma_no_error_each(s.drop_last(), t);
        assert forall|i: int| 0 <= i < s.len() implies coerce_error(#[trigger] s[i], t).is_none() by {
            if i < s.len() - 1 {
                assert(s[i] == s.drop_last()[i]);
            }
        }
    }
}

/// A single column: ordered elements, an optional name, and the uniform
/// type tag when it is known.
#[derive(Debug)]
pub struct Series {
    name: Option<String>,
    values: Vec<DataElement>,
    dtype: Option<DType>,
}

impl Series {
    pub closed spec fn spec_values(&self) -> Seq<DataElement> {
        self.values@
    }

    pub closed spec fn spec_dtype(&self) -> Option<DType> {
        self.dtype
    }

    pub closed spec fn spec_name(&self) -> Option<Seq<char>> {
        match self.name {
            Some(n) => Some(n@),
            None => None,
        }
    }

    /// The cached type tag, when present, is every element's tag.
    pub open spec fn wf(&self) -> bool {
        match self.spec_dtype() {
            Some(d) => all_of_dtype(self.spec_values(), d),
            None => true,
        }
    }

    pub open spec fn spec_len(&self) -> nat {
        self.spec_values().len()
    }

    /// The integers `start, start+1, .., stop-1`, typed `I32`.
    pub fn arange(start: i32, stop: i32) -> (r: Series)
        ensures
            r.wf(),
            r.spec_dtype() == Some(DType::I32),
            r.spec_name().is_none(),
            r.spec_len() == if stop > start { stop - start } else { 0 },
            forall|i: int| 0 <= i < r.spec_len() ==>
                r.spec_values()[i] == DataElement::I32((start + i) as i32),
    {
        let mut values: Vec<DataElement> = Vec::new();
        let mut v: i32 = start;
        while v < stop
            invariant
                start <= v <= stop || (v == start && stop <= start),
                v >= start,
                values.len() == v - start,
                forall|i: int| 0 <= i < values.len() ==>
                    values@[i] == DataElement::I32((start + i) as i32),
            decreases stop - v,
        {
            values.push(DataElement::I32(v));
            v = v + 1;
        }
        Series { name: None, values, dtype: Some(DType::I32) }
    }

    /// A series of `I32` elements; typed `I32` unless empty.
    pub fn from_vec(vec: Vec<i32>) -> (r: Series)
        ensures
            r.wf(),
            r.spec_dtype() == if vec.len() > 0 { Some(DType::I32) } else { None },
            r.spec_name().is_none(),
            r.spec_len() == vec.len(),
            forall|i: int| 0 <= i < vec.len() ==> r.spec_values()[i] == DataElement::I32(vec@[i]),
    {
        let mut values: Vec<DataElement> = Vec::new();
        let mut i: usize = 0;
        while i < vec.len()
            invariant
                i <= vec.len(),
                values.len() == i,
                forall|k: int| 0 <= k < i ==> values@[k] == DataElement::I32(vec@[k]),
            decreases vec.len() - i,
        {
            values.push(DataElement::I32(vec[i]));
            i = i + 1;
        }
        let dtype = if vec.len() > 0 { Some(DType::I32) } else { None };
        Series { name: None, values, dtype }
    }

    /// A series of `I64` elements; typed `I64` unless empty.
    pub fn from_vec_i64(vec: Vec<i64>) -> (r: Series)
        ensures
            r.wf(),
            r.spec_dtype() == if vec.len() > 0 { Some(DType::I64) } else { None },
            r.spec_name().is_none(),
            r.spec_len() == vec.len(),
            forall|i: int| 0 <= i < vec.len() ==> r.spec_values()[i] == DataElement::I64(vec@[i]),
    {
        let mut values: Vec<DataElement> = Vec::new();
        let mut i: usize = 0;
        while i < vec.len()
            invariant
                i <= vec.len(),
                values.len() == i,
                forall|k: int| 0 <= k < i ==> values@[k] == DataElement::I64(vec@[k]),
            decreases vec.len() - i,
        {
            values.push(DataElement::I64(vec[i]));
            i = i + 1;
        }
        let dtype = if vec.len() > 0 { Some(DType::I64) } else { None };
        Series { name: None, values, dtype }
    }

    /// A series of elements that all have the type tag `d`.
    pub fn from_typed(vec: Vec<DataElement>, d: DType) -> (r: Series)
        requires
            all_of_dtype(vec@, d),
        ensures
            r.wf(),
            r.spec_dtype() == Some(d),
            r.spec_name().is_none(),
            r.spec_values() == vec@,
    {
        Series { name: None, values: vec, dtype: Some(d) }
    }

    /// A series of the given elements, typed with the tag they all share, if any.
    pub fn from_elements_uniform(vec: Vec<DataElement>) -> (r: Series)
        ensures
            r.wf(),
            r.spec_dtype() == uniform_tag(vec@),
            r.spec_name().is_none(),
            r.spec_values() == vec@,
    {
        let dtype = find_uniform_tag(&vec);
        Series { name: None, values: vec, dtype }
    }

    /// Puts `vec` in place of the elements, typed with the tag they all share, if any.
    pub(crate) fn replace_values_uniform(&mut self, vec: Vec<DataElement>)
        ensures
            final(self).wf(),
            final(self).spec_values() == vec@,
            final(self).spec_dtype() == uniform_tag(vec@),
            final(self).spec_name() == old(self).spec_name(),
    {
        self.dtype = find_uniform_tag(&vec);
        self.values = vec;
    }

    /// A series of text elements; typed `STRING` unless empty.
    pub fn from_vec_string(vec: Vec<String>) -> (r: Series)
        ensures
            r.wf(),
            r.spec_dtype() == if vec.len() > 0 { Some(DType::STRING) } else { None },
            r.spec_name().is_none(),
            r.spec_len() == vec.len(),
            forall|i: int| 0 <= i < vec.len() ==> r.spec_values()[i] == DataElement::STRING(vec@[i]),
    {
        let mut values: Vec<DataElement> = Vec::new();
        let mut i: usize = 0;
        while i < vec.len()
            invariant
                i <= vec.len(),
                values.len() == i,
                forall|k: int| 0 <= k < i ==> values@[k] == DataElement::STRING(vec@[k]),
            decreases vec.len() - i,
        {
            values.push(DataElement::STRING(vec[i].clone()));
            i = i + 1;
        }
        let dtype = if vec.len() > 0 { Some(DType::STRING) } else { None };
        Series { name: None, values, dtype }
    }

    /// Puts `vec`, whose elements all have type `d`, in place of the elements.
    pub(crate) fn replace_values(&mut self, vec: Vec<DataElement>, d: DType)
        requires
            all_of_dtype(vec@, d),
        ensures
            final(self).wf(),
            final(self).spec_values() == vec@,
            final(self).spec_dtype() == Some(d),
            final(self).spec_name() == old(self).spec_name(),
    {
        self.values = vec;
        self.dtype = Some(d);
    }

    /// A series of the given elements, of unknown uniform type.
    pub fn from_data_elements(vec: Vec<DataElement>) -> (r: Series)
        ensures
            r.wf(),
            r.spec_dtype().is_none(),
            r.spec_name().is_none(),
            r.spec_values() == vec@,
    {
        Series { name: None, values: vec, dtype: None }
    }

    pub fn set_name(&mut self, name: &str)
        ensures
            final(self).spec_name() == Some(name@),
            final(self).spec_values() == old(self).spec_values(),
            final(self).spec_dtype() == old(self).spec_dtype(),
    {
        self.name = Some(name.to_string());
    }

    pub fn name(&self) -> (r: Option<String>)
        ensures
            match r {
                Some(n) => self.spec_name() == Some(n@),
                None => self.spec_name().is_none(),
            },
    {
        match &self.name {
            Some(n) => Some(n.clone()),
            None => None,
        }
    }

    pub fn len(&self) -> (r: usize)
        ensures
            r == self.spec_len(),
    {
        self.values.len()
    }

    pub fn is_empty(&self) -> (r: bool)
        ensures
            r == (self.spec_len() == 0),
    {
        self.values.len() == 0
    }

    pub fn dtype(&self) -> (r: Option<DType>)
        ensures
            r == self.spec_dtype(),
    {
        self.dtype
    }

    /// The element at `idx`.
    pub fn get(&self, idx: usize) -> (r: &DataElement)
        requires
            idx < self.spec_len(),
        ensures
            *r == self.spec_values()[idx as int],
    {
        &self.values[idx]
    }

    /// The elements, in order.
    pub fn values(&self) -> (r: &Vec<DataElement>)
        ensures
            r@ == self.spec_values(),
    {
        &self.values
    }

    /// Replaces the element at `idx`; the uniform type is kept only when the
    /// new element has it.
    pub fn set(&mut self, idx: usize, val: DataElement)
        requires
            old(self).wf(),
            idx < old(self).spec_len(),
        ensures
            final(self).wf(),
            final(self).spec_values() == old(self).spec_values().update(idx as int, val),
            final(self).spec_name() == old(self).spec_name(),
            final(self).spec_dtype() == (if old(self).spec_dtype() == Some(val.spec_dtype()) {
                old(self).spec_dtype()
            } else {
                None
            }),
    {
        let d = val.dtype();
        if self.dtype != Some(d) {
            self.dtype = None;
        }
        self.values.set(idx, val);
    }

    /// Adds an element at the end; the uniform type is kept only when the
    /// new element has it.
    pub fn append(&mut self, val: DataElement)
        requires
            old(self).wf(),
        ensures
            final(self).wf(),
            final(self).spec_values() == old(self).spec_values().push(val),
            final(self).spec_name() == old(self).spec_name(),
            final(self).spec_dtype() == (if old(self).spec_dtype() == Some(val.spec_dtype()) {
                old(self).spec_dtype()
            } else {
                None
            }),
    {
        let d = val.dtype();
        if self.dtype != Some(d) {
            self.dtype = None;
        }
        self.values.push(val);
    }

    /// Converts every element to `dtype`, all or nothing. On failure the
    /// series is unchanged and the error is that of the first failing element.
    /// Text parsed as a float and floats written as text fail here with
    /// `Conversion`; the float side of the library makes those conversions.
    pub fn astype(&mut self, dtype: DType) -> (r: Result<(), SeriesError>)
        requires
            old(self).wf(),
        ensures
            final(self).wf(),
            final(self).spec_name() == old(self).spec_name(),
            match first_coerce_error(old(self).spec_values(), dtype) {
                Some(err) => r == Err::<(), SeriesError>(err) && *final(self) == *old(self),
                None => {
                    &&& r is Ok
                    &&& final(self).spec_dtype() == Some(dtype)
                    &&& final(self).spec_len() == old(self).spec_len()
                    &&& forall|i: int| 0 <= i < old(self).spec_len() ==>
                        coerced(old(self).spec_values()[i], dtype, #[trigger] final(self).spec_values()[i])
                },
            },
    {
        match check_coercion(&self.values, dtype) {
            Some(err) => Err(err),
            None => {
                proof {
                    lemma_no_error_each(self.values@, dtype);
                }
                let mut out: Vec<DataElement> = Vec::new();
                let mut i: usize = 0;
                while i < self.values.len()
                    invariant
                        i <= self.values.len(),
                        out.len() == i,
                        forall|k: int| 0 <= k < self.values.len() ==>
                            coerce_error(#[trigger] self.values@[k], dtype).is_none(),
                        forall|k: int| 0 <= k < i ==>
                            coerced(self.values@[k], dtype, #[trigger] out@[k]),
                    decreases self.values.len() - i,
                {
                    let e = coerce_one(&self.values[i], dtype);
                    out.push(e);
                    i = i + 1;
                }
                proof {
                    assert forall|k: int| 0 <= k < out.len() implies
                        (#[trigger] out@[k]).spec_dtype() == dtype by {
                        assert(coerced(self.values@[k], dtype, out@[k]));
                    }
                }
                self.values = out;
                self.dtype = Some(dtype);
                Ok(())
            },
        }
    }
}

impl Series {
    /// Hands the series over as an owned heap value, for a holder that keeps
    /// only an opaque handle.
    pub fn into_raw(self) -> (r: Box<Series>)
        ensures
            *r == self,
    {
        Box::new(self)
    }

    /// Takes back a series handed over by `into_raw`.
    pub fn from_raw(b: Box<Series>) -> (r: Series)
        ensures
            r == *b,
    {
        *b
    }

    /// Whether each element is a floating NaN.
    pub fn isna(&self) -> (r: Vec<bool>)
        ensures
            r.len() == self.spec_len(),
            forall|i: int| 0 <= i < r.len() ==> r@[i] == (#[trigger] self.spec_values()[i]).spec_is_nan(),
    {
        let mut out: Vec<bool> = Vec::new();
        let mut i: usize = 0;
        while i < self.values.len()
            invariant
                self.values@ == self.spec_values(),
                i <= self.values.len(),
                out.len() == i,
                forall|k: int| 0 <= k < i ==> out@[k] == (#[trigger] self.spec_values()[k]).spec_is_nan(),
            decreases self.values.len() - i,
        {
            out.push(self.values[i].is_nan());
            i = i + 1;
        }
        out
    }

    /// The integer value of each element (floats truncate, a missing element
    /// is zero); the series holds no text.
    pub fn to_vec(&self) -> (r: Vec<i64>)
        requires
            forall|i: int| 0 <= i < self.spec_len() ==>
                (#[trigger] self.spec_values()[i]).spec_dtype() != DType::STRING,
        ensures
            r.len() == self.spec_len(),
            forall|i: int| 0 <= i < r.len() ==> r@[i] as int == (#[trigger] self.spec_values()[i]).int_value(),
    {
        let mut out: Vec<i64> = Vec::new();
        let mut i: usize = 0;
        while i < self.values.len()
            invariant
                i <= self.values.len(),
                out.len() == i,
                self.values@ == self.spec_values(),
                forall|k: int| 0 <= k < self.spec_len() ==>
                    (#[trigger] self.spec_values()[k]).spec_dtype() != DType::STRING,
                forall|k: int| 0 <= k < i ==> out@[k] as int == (#[trigger] self.spec_values()[k]).int_value(),
            decreases self.values.len() - i,
        {
            out.push(self.values[i].to_i64());
            i = i + 1;
        }
        out
    }
}

impl Clone for Series {
    fn clone(&self) -> (r: Series)
        ensures
            r.spec_values() == self.spec_values(),
            r.spec_dtype() == self.spec_dtype(),
            r.spec_name() == self.spec_name(),
    {
        let mut values: Vec<DataElement> = Vec::new();
        let mut i: usize = 0;
        while i < self.values.len()
            invariant
                i <= self.values.len(),
                values@ == self.values@.subrange(0, i as int),
            decreases self.values.len() - i,
        {
            values.push(self.values[i].clone());
            i = i + 1;
            assert(values@ == self.values@.subrange(0, i as int));
        }
        assert(self.values@.subrange(0, self.values.len() as int) == self.values@);
        let name = match &self.name {
            Some(n) => Some(n.clone()),
            None => None,
        };
        Series { name, values, dtype: self.dtype }
    }
}

/// Two series are equal when their elements are, position by position; the
/// name and the cached type tag do not count.
impl PartialEq for Series {
    fn eq(&self, o: &Series) -> (r: bool)
        ensures
            r == same_seq(self.spec_values(), o.spec_values()),
    {
        if self.values.len() != o.values.len() {
            return false;
        }
        let mut i: usize = 0;
        while i < self.values.len()
            invariant
                i <= self.values.len() == o.values.len(),
                forall|k: int| 0 <= k < i ==> (#[trigger] self.values@[k]).same(&o.values@[k]),
            decreases self.values.len() - i,
        {
            if !self.values[i].eq(&o.values[i]) {
                return false;
            }
            i = i + 1;
        }
        true
    }
}

impl vstd::std_specs::cmp::PartialEqSpecImpl for Series {
    open spec fn obeys_eq_spec() -> bool {
        true
    }

    open spec fn eq_spec(&self, o: &Series) -> bool {
        same_seq(self.spec_values(), o.spec_values())
    }
}

} // verus!
