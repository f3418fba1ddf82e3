//! Motion-silhouette video encoding: frames become lists of rectangles,
//! rectangle lists become a byte stream, and the stream is appended to a
//! host binary behind a fixed footer.

pub mod archive;
pub mod builder;
pub mod codec;
pub mod debugger;
pub mod extract;
pub mod file_header;
pub mod le;
pub mod pipeline;
pub mod raster;
pub mod rect;
pub mod runner;
pub mod scan;
pub mod text;
pub mod writer;
