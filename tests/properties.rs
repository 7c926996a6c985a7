use blackjack::arith::ArithOp;
use blackjack::dtype::{DType, SeriesError};
use blackjack::element::DataElement;
use blackjack::ratio::Ratio;
use blackjack::series::Series;

fn text(s: &str) -> DataElement {
    DataElement::STRING(s.to_string())
}

#[test]
fn sum_and_mean_of_arange() {
    let s = Series::arange(0, 5);
    assert_eq!(s.len(), 5);
    assert_eq!(s.sum(), 10);
    assert_eq!(s.mean().unwrap(), Ratio { num: 10, den: 5 });
}

#[test]
fn sum_of_empty_is_zero_and_mean_fails() {
    let s = Series::from_vec(vec![]);
    assert_eq!(s.sum(), 0);
    assert_eq!(s.mean(), Err(SeriesError::EmptyInput));
    assert_eq!(s.min(), Err(SeriesError::EmptyInput));
    assert_eq!(s.max(), Err(SeriesError::EmptyInput));
    assert!(s.is_empty());
}

#[test]
fn reductions_skip_text_and_nan() {
    let s = Series::from_data_elements(vec![
        DataElement::I32(4),
        text("x"),
        DataElement::F64(f64::NAN.to_bits()),
        DataElement::I64(6),
        DataElement::F64(2.9f64.to_bits()),
    ]);
    assert_eq!(s.sum(), 12);
    assert_eq!(s.mean().unwrap(), Ratio { num: 12, den: 3 });
    assert_eq!(s.min().unwrap(), 2);
    assert_eq!(s.max().unwrap(), 6);
}

#[test]
fn only_text_has_no_mean() {
    let s = Series::from_data_elements(vec![text("a"), text("b")]);
    assert_eq!(s.sum(), 0);
    assert_eq!(s.mean(), Err(SeriesError::EmptyInput));
    assert_eq!(s.median(), Err(SeriesError::EmptyInput));
}

#[test]
fn min_max_bound_every_value() {
    let s = Series::from_vec(vec![3, -7, 12, 0, 12, -7]);
    let lo = s.min().unwrap();
    let hi = s.max().unwrap();
    assert_eq!((lo, hi), (-7, 12));
    for v in s.to_vec() {
        assert!(lo <= v && v <= hi);
    }
}

#[test]
fn astype_round_trip_sets_dtype() {
    let mut s = Series::from_data_elements(vec![DataElement::I32(1), DataElement::I64(-2)]);
    assert_eq!(s.dtype(), None);
    s.astype(DType::I64).unwrap();
    assert_eq!(s.dtype(), Some(DType::I64));
    assert_eq!(*s.get(0), DataElement::I64(1));
    s.astype(DType::I32).unwrap();
    assert_eq!(s.dtype(), Some(DType::I32));
    assert_eq!(*s.get(1), DataElement::I32(-2));
}

#[test]
fn astype_to_text_formats_integers() {
    let mut s = Series::from_vec(vec![12, -3]);
    s.astype(DType::STRING).unwrap();
    assert_eq!(s.dtype(), Some(DType::STRING));
    assert_eq!(*s.get(0), text("12"));
    assert_eq!(*s.get(1), text("-3"));
    let mut t = Series::from_vec_i64(vec![0, i64::MIN, i64::MAX, 1000]);
    t.astype(DType::STRING).unwrap();
    let want: Vec<DataElement> = vec![0i64, i64::MIN, i64::MAX, 1000].iter().map(|v| text(&v.to_string())).collect();
    assert_eq!(t, Series::from_data_elements(want));
}

#[test]
fn astype_text_to_int_fails_and_keeps_series() {
    let mut s = Series::from_data_elements(vec![DataElement::I32(1), text("hello")]);
    assert_eq!(s.astype(DType::I64), Err(SeriesError::TypeCoercion));
    assert_eq!(*s.get(0), DataElement::I32(1));
    assert_eq!(s.dtype(), None);
}

#[test]
fn astype_nan_to_int_fails() {
    let mut s = Series::from_data_elements(vec![DataElement::F64(f64::NAN.to_bits())]);
    assert_eq!(s.astype(DType::I32), Err(SeriesError::TypeCoercion));
}

#[test]
fn astype_float_truncates_and_saturates() {
    let mut s = Series::from_data_elements(vec![
        DataElement::F64((-2.75f64).to_bits()),
        DataElement::F64(1e300f64.to_bits()),
        DataElement::F32(7.5f32.to_bits()),
        DataElement::F64(0.25f64.to_bits()),
    ]);
    s.astype(DType::I64).unwrap();
    assert_eq!(s.to_vec(), vec![-2, i64::MAX, 7, 0]);
}

#[test]
fn astype_int_to_float_rounds_like_as() {
    let mut s = Series::from_vec_i64(vec![1, -3, i64::MAX, 9007199254740993, 0]);
    s.astype(DType::F64).unwrap();
    assert_eq!(s.dtype(), Some(DType::F64));
    let want: Vec<DataElement> = vec![1i64, -3, i64::MAX, 9007199254740993, 0]
        .into_iter()
        .map(|v| DataElement::F64((v as f64).to_bits()))
        .collect();
    assert_eq!(s, Series::from_data_elements(want));

    let mut t = Series::from_vec(vec![16777217, -16777219, i32::MIN, 7]);
    t.astype(DType::F32).unwrap();
    let want: Vec<DataElement> = vec![16777217i32, -16777219, i32::MIN, 7]
        .into_iter()
        .map(|v| DataElement::F32((v as f32).to_bits()))
        .collect();
    assert_eq!(t, Series::from_data_elements(want));
}

#[test]
fn astype_between_float_widths() {
    let f32s = vec![1.5f32, -0.0, f32::from_bits(1), f32::from_bits(0x7fffff), f32::INFINITY, f32::MAX];
    let mut s = Series::from_data_elements(f32s.iter().map(|v| DataElement::F32(v.to_bits())).collect());
    s.astype(DType::F64).unwrap();
    let want: Vec<DataElement> = f32s.iter().map(|v| DataElement::F64((*v as f64).to_bits())).collect();
    assert_eq!(s, Series::from_data_elements(want));

    let f64s = vec![0.1f64, 1e300, -1e-300, 1e-45, 3.4028235677973366e38, 1.401298464324817e-45,
        7.006492321624085e-46, 2.0f64.powi(-149) * 1.5, -2.5, f64::NEG_INFINITY, 1e-40];
    let mut t = Series::from_data_elements(f64s.iter().map(|v| DataElement::F64(v.to_bits())).collect());
    t.astype(DType::F32).unwrap();
    let want: Vec<DataElement> = f64s.iter().map(|v| DataElement::F32((*v as f32).to_bits())).collect();
    assert_eq!(t, Series::from_data_elements(want));
}

#[test]
fn astype_nan_and_missing_to_float() {
    let mut s = Series::from_data_elements(vec![DataElement::F32(f32::NAN.to_bits()), DataElement::Missing]);
    s.astype(DType::F64).unwrap();
    assert_eq!(s.isna(), vec![true, true]);
}

#[test]
fn astype_text_to_float_is_left_to_caller() {
    let mut s = Series::from_vec_string(vec!["1.5".to_string()]);
    assert_eq!(s.dtype(), Some(DType::STRING));
    assert_eq!(s.astype(DType::F64), Err(SeriesError::Conversion));
    assert_eq!(*s.get(0), text("1.5"));
}

#[test]
fn astype_missing_clears() {
    let mut s = Series::from_data_elements(vec![text("a"), DataElement::I32(1)]);
    s.astype(DType::Missing).unwrap();
    assert_eq!(*s.get(0), DataElement::Missing);
    assert_eq!(s.dtype(), Some(DType::Missing));
}

#[test]
fn rolling_window_one_is_identity() {
    let s = Series::from_vec(vec![4, 8, 15]);
    let r = s.rolling(1).sum().unwrap();
    assert_eq!(r, vec![Some(Ratio { num: 4, den: 1 }), Some(Ratio { num: 8, den: 1 }), Some(Ratio { num: 15, den: 1 })]);
}

#[test]
fn rolling_full_window_and_padding() {
    let s = Series::from_vec(vec![1, 2, 3, 1, 2, 6]);
    let r = s.rolling(4).mean().unwrap();
    assert_eq!(r.len(), 6);
    assert!(r[0..3].iter().all(|v| v.is_none()));
    assert_eq!(r[3], Some(Ratio { num: 7, den: 4 }));
    assert_eq!(r[5], Some(Ratio { num: 12, den: 4 }));
    let direct = Series::from_vec(vec![3, 1, 2, 6]).mean().unwrap();
    assert_eq!(r[5], Some(direct));
}

#[test]
fn rolling_fails_on_window_without_values() {
    let s = Series::from_data_elements(vec![DataElement::I32(1), text("a"), text("b")]);
    assert_eq!(s.rolling(2).mean(), Err(SeriesError::EmptyInput));
    assert_eq!(s.rolling(2).min(), Err(SeriesError::EmptyInput));
}

#[test]
fn groupby_first_appearance_order() {
    let vals = Series::from_vec(vec![10, 20, 30, 40, 50]);
    let keys = Series::from_vec(vec![9, 1, 9, 5, 1]);
    let g = vals.groupby(&keys).sum().unwrap();
    assert_eq!(g, vec![Ratio { num: 40, den: 1 }, Ratio { num: 70, den: 1 }, Ratio { num: 40, den: 1 }]);
}

#[test]
fn groupby_text_keys() {
    let vals = Series::from_vec(vec![1, 2, 3]);
    let keys = Series::from_data_elements(vec![text("b"), text("a"), text("b")]);
    let g = vals.groupby(&keys).max().unwrap();
    assert_eq!(g, vec![Ratio { num: 3, den: 1 }, Ratio { num: 2, den: 1 }]);
}

#[test]
fn groupby_shape_mismatch() {
    let vals = Series::from_vec(vec![1, 2, 3]);
    let keys = Series::from_vec(vec![1, 2]);
    assert_eq!(vals.groupby(&keys).mean(), Err(SeriesError::ShapeMismatch));
}

#[test]
fn mode_tie_returns_both() {
    let s = Series::from_vec(vec![0, 0, 0, 1, 1, 1, 2]);
    let m = s.mode().unwrap();
    assert_eq!(m, Series::from_vec(vec![0, 1]));
    assert_eq!(m.dtype(), Some(DType::I32));
}

#[test]
fn mode_of_i64_is_sorted() {
    let s = Series::from_vec_i64(vec![9, 3, 9, 3, 1]);
    assert_eq!(s.mode().unwrap(), Series::from_vec_i64(vec![3, 9]));
}

#[test]
fn mode_of_empty_fails() {
    assert_eq!(Series::from_vec(vec![]).mode(), Err(SeriesError::EmptyInput));
}

#[test]
fn quantile_of_arange() {
    let s = Series::arange(0, 101);
    assert_eq!(s.quantile(1, 2).unwrap(), Ratio { num: 50, den: 1 });
    assert_eq!(s.quantile(0, 1).unwrap(), Ratio { num: 0, den: 1 });
    assert_eq!(s.quantile(1, 1).unwrap(), Ratio { num: 100, den: 1 });
}

#[test]
fn median_unsorted_input() {
    let s = Series::from_vec(vec![7, 1, 5, 3]);
    assert_eq!(s.median().unwrap(), Ratio { num: 8, den: 2 });
}

#[test]
fn variance_needs_more_than_ddof() {
    let s = Series::from_vec(vec![5]);
    assert_eq!(s.var(1), Err(SeriesError::EmptyInput));
    assert_eq!(s.var(0).unwrap(), Ratio { num: 0, den: 1 });
}

#[test]
fn variance_overflow_is_conversion() {
    let s = Series::from_vec_i64(vec![i64::MAX, i64::MIN, i64::MAX, i64::MIN]);
    assert_eq!(s.var(0), Err(SeriesError::Conversion));
}

#[test]
fn shape_mismatch_is_error() {
    let a = Series::arange(0, 5);
    let b = Series::arange(0, 6);
    assert_eq!(a.binary(&b, ArithOp::Add).err(), Some(SeriesError::ShapeMismatch));
}

#[test]
fn division_by_zero_and_overflow() {
    let a = Series::from_vec(vec![1, 2]);
    assert_eq!(a.scalar(0, ArithOp::Div).err(), Some(SeriesError::Conversion));
    let b = Series::from_vec_i64(vec![i64::MAX]);
    assert_eq!(b.scalar(1, ArithOp::Add).err(), Some(SeriesError::Conversion));
    let c = Series::from_vec(vec![-7]);
    assert_eq!(c.scalar(2, ArithOp::Div).unwrap().to_vec(), vec![-3]);
}

#[test]
fn arithmetic_with_nan_gives_nan() {
    let a = Series::from_data_elements(vec![DataElement::I32(1), DataElement::F64(f64::NAN.to_bits())]);
    let r = a.scalar(2, ArithOp::Add).unwrap();
    assert_eq!(*r.get(0), DataElement::I64(3));
    assert!(r.get(1).is_nan());
    assert_eq!(r.dtype(), None);
    let m = Series::from_data_elements(vec![DataElement::Missing]);
    assert_eq!(m.scalar(5, ArithOp::Add).unwrap().to_vec(), vec![5]);
}

#[test]
fn arithmetic_on_floats_is_left_to_caller() {
    let a = Series::from_data_elements(vec![DataElement::F64(1.5f64.to_bits())]);
    assert_eq!(a.binary(&a, ArithOp::Add).err(), Some(SeriesError::Conversion));
}

#[test]
fn arithmetic_on_text_fails() {
    let a = Series::from_data_elements(vec![text("a")]);
    assert_eq!(a.scalar(1, ArithOp::Mul).err(), Some(SeriesError::TypeCoercion));
}

#[test]
fn inplace_failure_keeps_series() {
    let mut a = Series::from_vec(vec![1, 2]);
    let b = Series::from_vec(vec![1, 0]);
    assert_eq!(a.binary_assign(&b, ArithOp::Div), Err(SeriesError::Conversion));
    assert_eq!(a, Series::from_vec(vec![1, 2]));
}

#[test]
fn append_breaks_uniform_dtype() {
    let mut s = Series::from_vec(vec![1]);
    s.append(DataElement::I32(2));
    assert_eq!(s.dtype(), Some(DType::I32));
    s.append(text("x"));
    assert_eq!(s.dtype(), None);
    assert_eq!(s.len(), 3);
}

#[test]
fn equality_ignores_name() {
    let mut a = Series::from_vec(vec![1, 2]);
    a.set_name("left");
    let b = Series::from_vec(vec![1, 2]);
    assert_eq!(a, b);
    assert_ne!(a, Series::from_vec_i64(vec![1, 2]));
}

#[test]
fn nan_is_not_missing() {
    assert!(DataElement::F64(f64::NAN.to_bits()).is_nan());
    assert!(DataElement::F32(f32::NAN.to_bits()).is_nan());
    assert!(!DataElement::Missing.is_nan());
    assert!(!DataElement::F64(f64::INFINITY.to_bits()).is_nan());
    assert_eq!(DataElement::Missing.dtype(), DType::Missing);
}

#[test]
fn mode_without_repeats_is_every_value() {
    let s = Series::from_vec(vec![3, 1, 2]);
    assert_eq!(s.mode().unwrap(), Series::from_vec(vec![1, 2, 3]));
}

#[test]
fn clone_keeps_everything() {
    let mut s = Series::from_vec(vec![1, 2]);
    s.set_name("c");
    let t = s.clone();
    assert_eq!(t, s);
    assert_eq!(t.name(), Some("c".to_string()));
    assert_eq!(t.dtype(), Some(DType::I32));
}

#[test]
fn scalar_in_place() {
    let mut s = Series::from_vec(vec![1, 2, 3]);
    s.set_name("n");
    s.scalar_assign(10, ArithOp::Mul).unwrap();
    assert_eq!(s.to_vec(), vec![10, 20, 30]);
    assert_eq!(s.dtype(), Some(DType::I64));
    assert_eq!(s.name(), Some("n".to_string()));
    assert_eq!(s.scalar_assign(0, ArithOp::Div), Err(SeriesError::Conversion));
    assert_eq!(s.to_vec(), vec![10, 20, 30]);
}
