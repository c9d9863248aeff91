//! In-memory time series: an ordered index of millisecond timestamps paired
//! with a sequence of sample words, with truncating construction, step-function
//! lookup, elementwise transformation and sorted merge.

pub mod index;
pub mod laws;
pub mod series;

pub use series::DataPoint;
pub use series::TimeSeries;
pub use series::SeriesError;
pub use series::TimeSeriesIter;
pub use series::ToSeries;
