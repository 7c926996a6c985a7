use vstd::prelude::*;

verus! {

/// The type tag of one element, or the declared uniform type of a series.
#[derive(Debug, Clone, Copy, PartialEq, Eq, Structural)]
pub enum DType {
    I32,
    I64,
    F32,
    F64,
    STRING,
    Missing,
}

/// The kinds of failure that the series engines report.
#[derive(Debug, Clone, Copy, PartialEq, Eq, Structural)]
pub enum SeriesError {
    /// An aggregation over a series without eligible elements.
    EmptyInput,
    /// Text or a NaN float was to become an integer.
    TypeCoercion,
    /// Two series (or a series and its keys) differ in length.
    ShapeMismatch,
    /// A value does not fit the numeric type it has to be held in.
    Conversion,
}

} // verus!
