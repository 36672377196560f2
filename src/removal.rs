pub mod arguments;
pub mod batch;
pub mod cpath;
pub mod directorywalker;
pub mod run;
pub mod sighandle;

pub use arguments::Arguments;
pub use batch::{Batch, BatchDeleter, Completion, Removal, RemovalError, Report};
pub use cpath::encode_path;
pub use directorywalker::{classify, DirectoryWalker, Entry, Metadata, Probe, Step};
pub use run::{Action, Phase, Run, Stage};
pub use sighandle::CancellationSignal;
