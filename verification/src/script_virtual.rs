//! What a script run in a virtual environment leaves behind.

use vstd::prelude::*;
use std::sync::Arc;

verus! {

/// One piece of a script's output: a line it printed, or an image it
/// wrote, with its path.
pub enum ScriptOutputKind {
    PrintLine(String),
    Image { path: String, data: Arc<Vec<u8>> },
}

} // verus!
