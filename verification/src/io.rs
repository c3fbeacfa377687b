//! Descriptions of the loaders and writers of model files.

pub mod sly;
pub mod tapn;

use crate::models::Label;
use vstd::prelude::*;

verus! {

/// Failure to read or write a model.
#[derive(Debug, Clone, Copy, PartialEq, Eq, Structural)]
pub struct ModelIOError;

/// Description of a model loader: its name, what it does, the file extension it reads
/// and the kind of model it gives.
pub struct ModelLoaderMeta {
    pub name: Label,
    pub description: String,
    pub ext: Label,
    pub output: Label,
}

/// Description of a model writer: its name, what it does, the file extension it writes
/// and the kind of model it takes.
pub struct ModelWriterMeta {
    pub name: Label,
    pub description: String,
    pub ext: Label,
    pub input: Label,
}

} // verus!
