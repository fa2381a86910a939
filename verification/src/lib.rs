//! Greedy string tiling with a running Karp-Rabin scan: the longest common,
//! non-overlapping substrings of a pattern and a text.

pub mod board;
pub mod candidates;
pub mod checksum;
pub mod driver;
pub mod index;
pub mod laws;
pub mod marks;
pub mod order;
pub mod passes;
pub mod record;
pub mod scanner;
pub mod state;
pub mod tiler;
pub mod tiling;
pub mod window;

pub use driver::run;
pub use driver::try_run;
pub use driver::InvalidArgument;
pub use record::Match;
