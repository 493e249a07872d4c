//! Structural comparison of tree-shaped (JSON-like) values.
//!
//! The crate models JSON values as the [`value::Value`] tree, compares two
//! trees under a [`config::Config`] policy with [`diff::diff`], and returns a
//! path-annotated list of [`diff::Difference`] records.  An empty list means
//! the two values are equivalent under the chosen policy.

pub mod config;
pub mod value;
pub mod num;
pub mod diff;
pub mod laws;

pub use config::ArraySortingMode;
pub use config::CompareMode;
pub use config::Config;
pub use config::FloatCompareMode;
pub use config::NumericMode;
pub use diff::Difference;
pub use diff::diff;
pub use diff::Key;
pub use diff::Path;
pub use diff::Side;
pub use value::Number;
pub use value::Value;
