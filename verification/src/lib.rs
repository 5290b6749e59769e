//! Conversion of delimited text tables into typed, batched column data.
//!
//! A file is converted in two passes over its rows. The first samples a
//! bounded number of rows and gives each column the narrowest type that
//! holds every sampled value (`infer`, over `lexical` and `lattice`); from
//! that the schema is settled (`schema`). The second reads every row under
//! the schema and gathers the typed rows into row groups (`convert`).
//! `pipeline` puts the passes together for rows held in memory, `text` for a
//! file held in memory as text. `task` names the output of each input, and
//! `harness` decides, for a run over many files, which task starts next and
//! keeps the errors of those that failed.

pub mod config;
pub mod convert;
pub mod error;
pub mod harness;
pub mod infer;
pub mod lattice;
pub mod lexical;
pub mod pipeline;
pub mod record;
pub mod schema;
pub mod task;
pub mod text;
