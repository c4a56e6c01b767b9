//! Installing the kernel's logger with the `log` facade.
use vstd::prelude::*;

verus! {

#[verifier::external_type_specification]
#[verifier::external_body]
pub struct ExSetLoggerError(log::SetLoggerError);

/// The most verbose level that the logger lets through.
#[derive(Clone, Copy, Debug, PartialEq, Eq, Structural)]
pub enum LogLevel {
    Off,
    Error,
    Warn,
    Info,
    Debug,
    Trace,
}

/// Why the logger could not be installed.
#[derive(Clone, Copy, Debug, PartialEq, Eq, Structural)]
pub enum LoggerError {
    /// Another logger was installed first.
    AlreadySet,
}

/// Relies on `log::set_logger`: installs `logger` as the process-wide logger, and
/// fails when one has been installed before.
#[verifier::external_body]
fn install_logger<L: log::Log>(logger: &'static L) -> (r: Result<(), log::SetLoggerError>) {
    log::set_logger(logger)
}

/// Relies on `log::set_max_level`: sets the most verbose level that is logged.
#[verifier::external_body]
fn set_max_level(level: LogLevel) {
    log::set_max_level(
        match level {
            LogLevel::Off => log::LevelFilter::Off,
            LogLevel::Error => log::LevelFilter::Error,
            LogLevel::Warn => log::LevelFilter::Warn,
            LogLevel::Info => log::LevelFilter::Info,
            LogLevel::Debug => log::LevelFilter::Debug,
            LogLevel::Trace => log::LevelFilter::Trace,
        },
    )
}

/// The kernel's logger; what it writes to is chosen by the board.
pub struct KernelLogger;

impl KernelLogger {
    /// The level that `init` lets through: every level.
    pub const LEVEL: LogLevel = LogLevel::Trace;

    /// Installs `logger` and lets every level through. When a logger was installed
    /// before, nothing changes and `AlreadySet` comes back; on success the level
    /// that was set comes back.
    pub fn init<L: log::Log>(logger: &'static L) -> (r: Result<LogLevel, LoggerError>)
        ensures
            r is Ok ==> r == Ok::<LogLevel, LoggerError>(LogLevel::Trace),
            r is Err ==> r == Err::<LogLevel, LoggerError>(LoggerError::AlreadySet),
    {
        match install_logger(logger) {
            Ok(()) => {
                set_max_level(Self::LEVEL);
                Ok(Self::LEVEL)
            },
            Err(_) => Err(LoggerError::AlreadySet),
        }
    }
}

} // verus!
