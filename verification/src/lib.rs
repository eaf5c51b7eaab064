//! Incremental extraction of spreadsheet inputs into columnar Parquet
//! artifacts: change detection over a persisted manifest, adaptive
//! scheduling decisions, header sanitation, column type inference and
//! SQL generation for the in-process analytic engine.

pub mod autotune;
pub mod cache;
pub mod cells;
pub mod codec;
pub mod config;
pub mod header;
pub mod hw;
pub mod index;
pub mod naming;
pub mod orchestra;
pub mod scan;
pub mod sqlgen;
pub mod text;
pub mod types;
