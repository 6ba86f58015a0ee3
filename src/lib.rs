//! Incremental scan cache for trees of audio files: content digests,
//! per-directory manifests of evaluated files, and the decisions of a scan.
pub mod digest;
pub mod lac;
pub mod log;
pub mod processor;
pub mod round_trip;
pub mod scan;
pub mod text;

pub use digest::hash;
pub use lac::Lac;
pub use log::{File, Log, ManifestError};
pub use processor::{Processor, Step};
pub use scan::{DirResult, EntryKind, FnF};
