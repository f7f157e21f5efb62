//! The input data: stack frames and sampled stack traces.

use vstd::prelude::*;

verus! {

/// One stack entry of a sampled call stack: a function name, the full path of
/// its source file, an optional shorter path preferred for display, and a
/// source line number. Frames are opaque display data: nothing here interprets
/// them beyond rendering.
pub struct Frame {
    pub name: String,
    pub filename: String,
    pub short_filename: Option<String>,
    pub line: u32,
}

/// One sampled call stack: its frames in stored order (outermost first), and
/// whether the sampled thread held the global interpreter lock at capture
/// time.
pub struct StackTrace {
    pub frames: Vec<Frame>,
    pub owns_gil: bool,
}

} // verus!
