//! A rope data structure with a line count metric.

pub mod byte_laws;
pub mod cursor;
pub mod delta;
pub mod grapheme;
pub mod grapheme_laws;
pub mod interval;
pub mod laws;
pub mod leaf;
pub mod leaf_laws;
pub mod leaves;
pub mod lines;
pub mod metric;
pub mod rope;
pub mod scan;
pub mod segment;
pub mod text;
pub mod tree;

pub use crate::cursor::Cursor;
pub use crate::delta::{RopeDelta, RopeDeltaElement};
pub use crate::interval::Interval;
pub use crate::lines::{ChunkIter, Lines, LinesRaw};
pub use crate::metric::{len_utf8_from_first_byte, BaseMetric, LinesMetric, RopeInfo};
pub use crate::rope::Rope;
pub use crate::tree::TreeBuilder;
