use vstd::prelude::*;

verus! {

/// The failures a command can surface. Every failure is terminal for the
/// single command invocation that raised it; nothing is retried.
#[derive(Debug, Clone, PartialEq, Eq)]
pub enum ClockError {
    /// Clock-in was asked for while a marker already exists.
    AlreadyRunning,
    /// Clock-out or abort was asked for while no marker exists.
    NotRunning,
    /// A new entry's span shares an inner instant with an existing entry.
    Overlap,
    /// A start-time string matched none of the accepted formats; carries
    /// the offending input.
    Parse(String),
    /// No entry store exists for the namespace on list or summarize.
    NotFound,
    /// Stored bytes failed to deserialize.
    CorruptData,
    /// The storage collaborator failed.
    Io,
}

} // verus!
