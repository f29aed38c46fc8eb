//! What holds of the filesystem across operations.
//!
//! Each statement here is proved of the model in `model`. The contracts of
//! the engine's operations say that they do exactly what the model's
//! functions say, so each statement holds of the engine too.

pub mod descriptors;
pub mod extents;
pub mod contents;
pub mod restart;
