pub mod digits;
pub mod export;
pub mod expression;
pub mod integer;
pub mod math;
pub mod optimize;
pub mod stats;
pub mod uniform_cost_search;
