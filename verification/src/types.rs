//! The errors of the command handlers.

use vstd::prelude::*;

verus! {

/// Why a command failed.
#[derive(Debug, Clone, Copy, PartialEq, Eq, Structural)]
pub enum AppError {
    /// Unable to open dump file
    CannotOpenDumpFile,
    /// Unable to write to outfile
    CannotWriteToOutfile,
}

/// What a command handler gives.
pub type HandlerResult = Result<(), AppError>;

} // verus!
