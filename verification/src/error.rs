use vstd::prelude::*;

verus! {

/// A domain or infrastructure failure with a stable code, a human-readable
/// message and the process exit status that reports it.
#[derive(Debug)]
pub struct PortaError {
    pub code: &'static str,
    pub message: String,
    pub exit_code: u8,
}

/// Result type of every fallible library operation.
pub type PortaResult<T> = Result<T, PortaError>;

/// Exit status of a valid request with no matching record or capacity.
pub const EXIT_MISSING: u8 = 1;

/// Exit status of invalid input, configuration or registry data.
pub const EXIT_INVALID: u8 = 2;

/// Exit status of a state-directory, lock, socket or I/O failure.
pub const EXIT_INFRASTRUCTURE: u8 = 3;

impl PortaError {
    pub fn new(code: &'static str, message: String, exit_code: u8) -> (error: Self)
        ensures
            error.code == code,
            error.message@ == message@,
            error.exit_code == exit_code,
    {
        Self { code, message, exit_code }
    }

    pub fn invalid(code: &'static str, message: String) -> (error: Self)
        ensures
            error.code == code,
            error.message@ == message@,
            error.exit_code == EXIT_INVALID,
    {
        Self::new(code, message, EXIT_INVALID)
    }

    pub fn missing(code: &'static str, message: String) -> (error: Self)
        ensures
            error.code == code,
            error.message@ == message@,
            error.exit_code == EXIT_MISSING,
    {
        Self::new(code, message, EXIT_MISSING)
    }

    pub fn infrastructure(code: &'static str, message: String) -> (error: Self)
        ensures
            error.code == code,
            error.message@ == message@,
            error.exit_code == EXIT_INFRASTRUCTURE,
    {
        Self::new(code, message, EXIT_INFRASTRUCTURE)
    }
}

} // verus!
