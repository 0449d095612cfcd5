use vstd::prelude::*;

verus! {

/// The closed set of failures the picker distinguishes.
///
/// The first two are recoverable and silent: a default is substituted and
/// the flow continues. The root and scan failures are recoverable by
/// prompting for a root again. An empty candidate set reaching the selector
/// is a distinct, explicitly named failure, never a silent default. A
/// streaming failure only disables that capability for the session. The
/// data-directory and persistence failures are fatal and propagate to the
/// process entry point.
#[derive(Debug, PartialEq, Eq)]
pub enum AppError {
    /// The persisted ledger existed but could not be parsed.
    CorruptLedger,
    /// The metadata probe failed; metadata display is best-effort.
    ProbeFailed { message: String },
    /// The chosen scan root is not a readable directory.
    InvalidRoot { path: String },
    /// Walking the scan root failed part way.
    ScanFailed { path: String, message: String },
    /// An empty candidate set reached the selector.
    EmptyCandidateSet,
    /// The retrieval responder could not bind or find an address.
    StreamingUnavailable { message: String },
    /// The per-user application data directory could not be determined or
    /// created.
    DataDirUnavailable { message: String },
    /// Writing the ledger to disk failed.
    PersistFailed { message: String },
}

impl AppError {
    /// A short fixed description of the failure kind.
    pub fn describe(&self) -> (r: &'static str)
        ensures
            r@ == match self {
                AppError::CorruptLedger => "could not parse the persisted history"@,
                AppError::ProbeFailed { .. } => "could not probe video metadata"@,
                AppError::InvalidRoot { .. } => "the path is not a readable directory"@,
                AppError::ScanFailed { .. } => "scanning the folder failed"@,
                AppError::EmptyCandidateSet => "no video entries were available for selection"@,
                AppError::StreamingUnavailable { .. } => "the streaming server is unavailable"@,
                AppError::DataDirUnavailable { .. } => "could not determine the application data directory"@,
                AppError::PersistFailed { .. } => "could not save the history"@,
            },
    {
        match self {
            AppError::CorruptLedger => "could not parse the persisted history",
            AppError::ProbeFailed { .. } => "could not probe video metadata",
            AppError::InvalidRoot { .. } => "the path is not a readable directory",
            AppError::ScanFailed { .. } => "scanning the folder failed",
            AppError::EmptyCandidateSet => "no video entries were available for selection",
            AppError::StreamingUnavailable { .. } => "the streaming server is unavailable",
            AppError::DataDirUnavailable { .. } => "could not determine the application data directory",
            AppError::PersistFailed { .. } => "could not save the history",
        }
    }
}

} // verus!
