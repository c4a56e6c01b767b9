use bring_up::logging::{KernelLogger, LogLevel, LoggerError};

struct Quiet;

impl log::Log for Quiet {
    fn enabled(&self, _metadata: &log::Metadata) -> bool {
        true
    }

    fn log(&self, _record: &log::Record) {}

    fn flush(&self) {}
}

#[test]
fn logger_installs_once() {
    let first: &'static Quiet = Box::leak(Box::new(Quiet));
    assert_eq!(KernelLogger::init(first), Ok(LogLevel::Trace));
    assert_eq!(log::max_level(), log::LevelFilter::Trace);
    let second: &'static Quiet = Box::leak(Box::new(Quiet));
    assert_eq!(KernelLogger::init(second), Err(LoggerError::AlreadySet));
}
