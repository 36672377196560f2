//! Recursive removal of a directory tree in bounded batches.
//!
//! The library holds the decisions of a removal run: how a depth-first
//! traversal is cut into chunks of files and a deepest-first queue of
//! directories, how a chunk becomes a batch of kernel-visible path buffers
//! with correlation ids, how completions are matched back to their paths,
//! and when a run stops. Reading the disk and talking to the kernel is left
//! to the program around it.
pub mod removal;
