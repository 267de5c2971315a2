//! samesame: find repeated fragments of code across files.
//!
//! Every file is reduced to a sequence of line hashes; two such sequences are
//! aligned with a patience diff into runs of identical (`Same`) and differing
//! (`Diff`) lines, and the long enough `Same` runs are reported.

pub mod types;
pub mod align;
pub mod lcs;
pub mod lis;
pub mod diff;
pub mod discovery;
pub mod file;
pub mod path_key;
pub mod rolling_hash;
pub mod text;
pub mod error;
pub mod cli;
pub mod output;
