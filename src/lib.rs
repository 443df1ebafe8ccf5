use vstd::prelude::*;

pub mod action;
pub mod laws;
pub mod metric;
pub mod order;
pub mod ranking;

pub use action::Action;
pub use metric::{
    Metadata, MemoryStore, Metric, MetricError, MetricStore, NumMetric, StorageFailure, SuccessCardToTableMeta,
    WonGameMeta,
};
pub use ranking::{PlayerWithValue, Ranking, RankingMethods};

verus! {

} // verus!
