//! An in-memory, dictionary-encoded column store with bitmap indices and an
//! associative multi-select filter engine.
pub mod bitmap;
pub mod column;
pub mod engine;
pub mod loading;
pub mod names;
pub mod sniffer;
pub mod sources;

pub use crate::column::{Column, ColumnParts, DataType};
pub use crate::engine::{
    page_bounds, ImportError, TarsEngine, ToggleStatus, EXCLUDED, POSSIBLE, SELECTED, TOP_VALUES,
};
pub use crate::loading::LoadError;
