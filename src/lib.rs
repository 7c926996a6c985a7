//! Typed single-column data series with exact, verified aggregation,
//! rolling-window, group-by and elementwise arithmetic engines.


pub mod dtype;
pub mod element;
pub mod floatbits;
pub mod ratio;
pub mod series;
pub mod aggregate;
pub mod rolling;
pub mod groupby;
pub mod arith;
pub mod laws;
