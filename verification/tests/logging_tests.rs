use snarkos_ledger::logging::{logger_settings, muted_directive, LogLevel, LoggerSettings};

#[test]
fn verbosity_zero_sets_up_no_logger() {
    assert_eq!(logger_settings(0), None);
}

#[test]
fn verbosity_levels() {
    assert_eq!(logger_settings(1), Some(LoggerSettings { level: LogLevel::Info, with_target: false }));
    assert_eq!(logger_settings(2), Some(LoggerSettings { level: LogLevel::Debug, with_target: false }));
    assert_eq!(logger_settings(3), Some(LoggerSettings { level: LogLevel::Trace, with_target: false }));
    assert_eq!(logger_settings(4), Some(LoggerSettings { level: LogLevel::Trace, with_target: true }));
    assert_eq!(logger_settings(5), Some(LoggerSettings { level: LogLevel::Info, with_target: false }));
    assert_eq!(logger_settings(255), Some(LoggerSettings { level: LogLevel::Info, with_target: false }));
}

#[test]
fn level_names() {
    assert_eq!(LogLevel::Info.as_str(), "info");
    assert_eq!(LogLevel::Debug.as_str(), "debug");
    assert_eq!(LogLevel::Trace.as_str(), "trace");
    assert_eq!(muted_directive(), "mio=off");
}
