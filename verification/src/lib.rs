//! Descriptive statistics and model-ready features over a salary survey.
//!
//! Raw comma-separated text is parsed into typed records; numeric columns are
//! aggregated and standardized, categorical columns are indexed and one-hot
//! encoded, and records are filtered and projected. Every function is a pure
//! transform over in-memory values and carries a verified contract: nothing
//! here reads, writes or prints.
//!
//! The parts, leaves first:
//!
//! - [`text`], [`number`], [`decimal`]: characters, splitting, and decimal
//!   notation read and written;
//! - [`fixed`], [`root`], [`sorting`]: fixed-point quotients, integer square
//!   roots, sorted copies;
//! - [`record`], [`parser`]: the rows of the survey, and how text becomes rows;
//! - [`aggregate`], [`standardize`], [`score_stats`]: mean, median, sample
//!   standard deviation and range; standard scores, and what holds of them;
//! - [`category`], [`encode`]: index maps of categorical columns, one-hot
//!   vectors and binary indicators;
//! - [`project`]: filtering and projecting records;
//! - [`pipeline`]: the features that the survey's reports use;
//! - [`bark_integer`], [`bark_something`], [`bark_generic`]: three small
//!   examples of traits.

pub mod text;
pub mod number;
pub mod decimal;
pub mod fixed;
pub mod root;
pub mod sorting;
pub mod record;
pub mod parser;
pub mod aggregate;
pub mod standardize;
pub mod score_stats;
pub mod category;
pub mod encode;
pub mod project;
pub mod pipeline;
pub mod bark_integer;
pub mod bark_something;
pub mod bark_generic;
