pub mod aggregated_data;
pub mod aggregator;
pub mod context;
pub mod data_block;
pub mod from_aggregates;
pub mod reporting;
pub mod typedefs;
pub mod value_combination;
