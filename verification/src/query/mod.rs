//! Queries over the store.

pub mod answer_laws;
pub mod ast;
pub mod executor;
pub mod fetch;
pub mod filter;
pub mod fracture;
pub mod fetch_laws;
pub mod graph_laws;
pub mod includes;
pub mod laws;
pub mod meaning;
pub mod order_laws;
pub mod paging_laws;
pub mod plan_cache;
pub mod plan_reuse;
pub mod plan_laws;
pub mod planner;
pub mod rows;
pub mod sort_laws;
pub mod statistics;
