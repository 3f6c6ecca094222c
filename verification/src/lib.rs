//! Incremental discovery of utility-class candidates in a source tree.
//!
//! A [`Scanner`] is made with glob sources. Its host resolves them once
//! against the disk; from then on every scan looks only at modification
//! times, reads what has changed, and folds the candidates found into a set
//! that only ever grows.

pub mod content;
pub mod detect;
pub mod expand;
pub mod glob;
pub mod matcher;
pub mod parser;
pub mod resolve;
pub mod scanner;
pub mod sources;
pub mod store;
pub mod text;
pub mod trace;

pub use content::ChangedContent;
pub use glob::GlobEntry;
pub use scanner::ScanOptions;
pub use scanner::ScanResult;
pub use scanner::Scanner;
