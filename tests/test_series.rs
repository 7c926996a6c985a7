use blackjack::arith::ArithOp;
use blackjack::dtype::{DType, SeriesError};
use blackjack::element::DataElement;
use blackjack::ratio::Ratio;
use blackjack::series::Series;

fn f64_series(vals: Vec<f64>) -> Series {
    Series::from_data_elements(vals.into_iter().map(|v| DataElement::F64(v.to_bits())).collect())
}

fn as_f64(r: &Ratio) -> f64 {
    r.numer() as f64 / r.denom() as f64
}

fn rolled_f64(v: &[Option<Ratio>]) -> Vec<f64> {
    v.iter().map(|r| match r {
        Some(r) => as_f64(r),
        None => f64::NAN,
    }).collect()
}

#[test]
fn test_series_op_series_impls() {
    let series1 = Series::from_vec(vec![1, 1, 1, 1, 1]);
    let series2 = Series::from_vec(vec![1, 1, 1, 1, 1, 1]);

    let result = series1.binary(&series2, ArithOp::Add).is_ok();
    assert_eq!(result, false);

    let result = series1.binary(&series1, ArithOp::Add);
    assert_eq!(result.is_ok(), true);
    assert_eq!(result.unwrap().sum(), 10);
}

#[test]
fn test_series_op_series_inplace() {
    let mut series1 = Series::from_vec(vec![1, 1, 1, 1]);
    let series = Series::from_vec(vec![2, 2, 2, 2]);

    series1.binary_assign(&series, ArithOp::Mul).unwrap();
    assert_eq!(series1.sum(), 8);
}

#[test]
fn test_into_iter() {
    let series = Series::from_vec(vec![1, 2, 3, 4]);
    let sum: i64 = series.to_vec().into_iter().sum();
    assert_eq!(sum, 10);
}

#[test]
fn test_isna() {
    let mut series = Series::from_vec(vec![0, 1, 2]);
    series.astype(DType::F32).unwrap();

    assert_eq!(series.isna(), vec![false, false, false]);

    series.set(0, DataElement::F32(f32::NAN.to_bits()));
    assert_eq!(series.isna(), vec![true, false, false]);
}

#[test]
fn test_groupbys() {
    let series = Series::from_vec(vec![1, 2, 3, 1, 2, 3]);
    let keys = Series::from_vec(vec![4, 5, 6, 4, 5, 6]);

    let grouped = series.groupby(&keys).sum().unwrap();
    assert_eq!(grouped.len(), 3);
    let vals: Vec<f64> = grouped.iter().map(as_f64).collect();
    assert_eq!(vals, vec![2.0, 4.0, 6.0]);

    let grouped = series.groupby(&keys).min().unwrap();
    let vals: Vec<f64> = grouped.iter().map(as_f64).collect();
    assert_eq!(vals, vec![1.0, 2.0, 3.0]);

    let grouped = series.groupby(&keys).max().unwrap();
    let vals: Vec<f64> = grouped.iter().map(as_f64).collect();
    assert_eq!(vals, vec![1.0, 2.0, 3.0]);

    let grouped = series.groupby(&keys).mean().unwrap();
    let vals: Vec<f64> = grouped.iter().map(as_f64).collect();
    assert_eq!(vals, vec![1_f64, 2_f64, 3_f64]);

    let grouped = series.groupby(&keys).var(1).unwrap();
    let vals: Vec<f64> = grouped.iter().map(as_f64).collect();
    assert_eq!(vals, vec![0_f64, 0_f64, 0_f64]);
}

#[test]
fn test_rolling() {
    let series = f64_series(vec![1., 2., 3., 1., 2., 6.]);
    let roller = series.rolling(4);

    let rolled = rolled_f64(&roller.mean().unwrap());
    assert_eq!(rolled.len(), 6);
    assert_eq!(rolled[0..2].iter().all(|v| v.is_nan()), true);
    assert_eq!(rolled[3], 1.75);
    assert_eq!(rolled[4], 2.0);
    assert_eq!(rolled[5], 3.0);

    let rolled = rolled_f64(&roller.median().unwrap());
    assert_eq!(rolled.len(), 6);
    assert_eq!(rolled[0..2].iter().all(|v| v.is_nan()), true);
    assert_eq!(rolled[3], 1.5);
    assert_eq!(rolled[4], 2.0);
    assert_eq!(rolled[5], 2.5);

    let rolled = rolled_f64(&roller.min().unwrap());
    assert_eq!(rolled.len(), 6);
    assert_eq!(rolled[0..2].iter().all(|v| v.is_nan()), true);
    assert_eq!(rolled[3], 1.0);
    assert_eq!(rolled[4], 1.0);
    assert_eq!(rolled[5], 1.0);

    let rolled = rolled_f64(&roller.max().unwrap());
    assert_eq!(rolled.len(), 6);
    assert_eq!(rolled[0..2].iter().all(|v| v.is_nan()), true);
    assert_eq!(rolled[3], 3.0);
    assert_eq!(rolled[4], 3.0);
    assert_eq!(rolled[5], 6.0);

    let rolled = rolled_f64(&roller.var(1).unwrap());
    assert_eq!(rolled.len(), 6);
    assert_eq!(rolled[0..2].iter().all(|v| v.is_nan()), true);
    assert_eq!(rolled[3], 0.9166666666666666);
    assert_eq!(rolled[4], 0.6666666666666666);
    assert_eq!(rolled[5], 4.6666666666666666);

    let rolled: Vec<f64> = rolled_f64(&roller.var(1).unwrap()).iter().map(|v| v.sqrt()).collect();
    assert_eq!(rolled.len(), 6);
    assert_eq!(rolled[0..2].iter().all(|v| v.is_nan()), true);
    assert_eq!(rolled[3], 0.9574271077563381);
    assert_eq!(rolled[4], 0.816496580927726);
    assert_eq!(rolled[5], 2.160246899469287);

    let rolled = rolled_f64(&roller.sum().unwrap());
    assert_eq!(rolled.len(), 6);
    assert_eq!(rolled[0..2].iter().all(|v| v.is_nan()), true);
    assert_eq!(rolled[3], 7.0);
    assert_eq!(rolled[4], 8.0);
    assert_eq!(rolled[5], 12.0);
}

#[test]
fn test_series_scalar_ops() {
    let base_series = Series::arange(0, 5);

    let series = base_series.scalar(2, ArithOp::Mul).unwrap();
    assert_eq!(series.sum(), 20);

    let series = base_series.scalar(2, ArithOp::Add).unwrap();
    assert_eq!(series.sum(), 20);

    let series = base_series.scalar(2, ArithOp::Sub).unwrap();
    assert_eq!(series.sum(), 0);

    let series = base_series.scalar(2, ArithOp::Div).unwrap();
    assert_eq!(series.sum() as i32, 4);
}

#[test]
fn test_series_indexing() {
    let mut series = Series::from_vec(vec![0, 1, 2, 3]);
    series.set(0, DataElement::I32(1));
    assert_eq!(*series.get(0), DataElement::I32(1));
}

#[test]
fn test_series_append() {
    let mut series = Series::from_vec(vec![0, 1, 2]);
    assert_eq!(series.len(), 3);

    series.append(DataElement::I32(3));
    assert_eq!(series.len(), 4);
    assert_eq!(*series.get(3), DataElement::I32(3));
}

#[test]
fn test_display_series() {
    let mut series = Series::arange(0, 10);
    series.set_name("test-column");
    println!("{:#?}", series);
}

#[test]
fn test_series_arange() {
    let series = Series::arange(0, 10);
    assert_eq!(series.len(), 10);
    assert_eq!(series.dtype().unwrap(), DType::I32);
}

#[test]
fn test_series_from_vec() {
    let series = f64_series(vec![1.0, 2.0, 3.0]);
    assert_eq!(series.len(), 3);
}

#[test]
fn test_series_naming() {
    let mut series = Series::from_vec(vec![1, 2, 3]);
    assert_eq!(series.name(), None);
    series.set_name("new-series");
    assert_eq!(series.name().unwrap(), "new-series".to_string());
}

#[test]
fn test_series_aggregation_ops() {
    let series = Series::arange(0, 5);

    assert_eq!(series.sum(), 10);
    assert_eq!(as_f64(&series.mean().unwrap()), 2.0);
    assert_eq!(series.min().unwrap(), 0);
    assert_eq!(series.max().unwrap(), 4);

    let series = Series::from_vec(vec![0, 0, 0, 1, 2, 3]);
    assert_eq!(series.mode().unwrap(), Series::from_vec(vec![0]));

    let series = Series::from_vec(vec![0, 0, 0, 1, 1, 1, 2]);
    assert_eq!(series.mode().unwrap(), Series::from_vec(vec![0, 1]));

    let series = Series::arange(0, 10);
    assert_eq!(as_f64(&series.var(1).unwrap()), 9.166666666666666);

    let series = Series::arange(0, 10);
    let std = as_f64(&series.var(1).unwrap()).sqrt();
    assert_eq!(std, 3.0276503540974917);

    let series = Series::arange(0, 10);
    let median = as_f64(&series.median().unwrap());
    assert!(median < 4.51);
    assert!(median > 4.49);
    let series = Series::arange(0, 3);
    assert_eq!(as_f64(&series.median().unwrap()), 1.0);

    let series = Series::arange(0, 101);
    assert_eq!(as_f64(&series.quantile(1, 2).unwrap()), 50.0);
    let series = Series::arange(0, 100);
    let qtl = as_f64(&series.quantile(1, 2).unwrap());
    assert!(qtl < 49.51);
    assert!(qtl > 49.49);
}

#[test]
fn test_into_from_raw() {
    let series = Series::arange(0, 5);
    let series_clone = Series::arange(0, 5);

    let ptr = series.into_raw();
    let recovered_series = Series::from_raw(ptr);
    assert_eq!(recovered_series, series_clone)
}
