//! A compact numeric view of line-oriented assembly graphs: segments, links
//! and paths with integer node identifiers, and a grouping of paths into
//! genomes by their names.
pub mod text;
pub mod tables;
pub mod record;
pub mod graph;
pub mod genome;

pub use genome::{GraphWrapper, GroupMode};
pub use graph::{GfaError, GraphBuilder, NGfa};
pub use record::{parse_line, LineError, NEdge, NNode, NPath, Record, TextEdge, TextNode, TextPath};
