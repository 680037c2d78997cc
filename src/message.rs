use vstd::prelude::*;

verus! {

/// A progress event, written by the engine for the presentation layer.
#[derive(Debug)]
pub enum Message {
    /// The number of pending URLs loaded at startup; always the first event.
    JobCount(usize),
    /// One URL was visited and marked visited.
    CompleteJob,
    /// A tab gave up on a URL: the URL and the last navigation error.
    Error { url: String, message: String },
    /// Teardown is done; always the last event.
    Finished,
}

} // verus!
