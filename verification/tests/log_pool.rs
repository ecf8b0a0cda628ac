use engine::log_pool::{
    clean_logs, label_color, read_logs, GuiLogger, LabelColor, LogLevel, LogPool,
};

#[test]
fn new_pool_is_empty() {
    let pool = LogPool::new();
    assert!(read_logs(&pool).is_empty());
}

#[test]
fn read_gives_back_what_was_recorded() {
    let mut pool = LogPool::new();
    pool.record(LogLevel::Info, "started".to_string());
    pool.record(LogLevel::Error, "failed".to_string());
    let logs = read_logs(&pool);
    assert_eq!(
        logs,
        vec![(LogLevel::Info, "started".to_string()), (LogLevel::Error, "failed".to_string())]
    );
    assert_eq!(read_logs(&pool), logs);
}

#[test]
fn clean_empties_the_pool() {
    let mut pool = LogPool::new();
    pool.record(LogLevel::Warn, "careful".to_string());
    clean_logs(&mut pool);
    assert!(read_logs(&pool).is_empty());
    pool.record(LogLevel::Trace, "again".to_string());
    assert_eq!(read_logs(&pool), vec![(LogLevel::Trace, "again".to_string())]);
}

#[test]
fn label_colors() {
    assert_eq!(label_color(LogLevel::Error), Some(LabelColor::Red));
    assert_eq!(label_color(LogLevel::Warn), Some(LabelColor::Yellow));
    assert_eq!(label_color(LogLevel::Info), None);
    assert_eq!(label_color(LogLevel::Debug), Some(LabelColor::Brown));
    assert_eq!(label_color(LogLevel::Trace), Some(LabelColor::Blue));
}

#[test]
fn logger_keeps_records_up_to_the_maximum_level() {
    let logger = GuiLogger;
    assert!(logger.enabled(LogLevel::Error, Some(LogLevel::Info)));
    assert!(logger.enabled(LogLevel::Info, Some(LogLevel::Info)));
    assert!(!logger.enabled(LogLevel::Debug, Some(LogLevel::Info)));
    assert!(logger.enabled(LogLevel::Trace, Some(LogLevel::Trace)));
    assert!(!logger.enabled(LogLevel::Error, None));
}

#[test]
fn logger_records_only_enabled_levels() {
    let logger = GuiLogger;
    let mut pool = LogPool::new();
    logger.log(&mut pool, LogLevel::Warn, Some(LogLevel::Info), "kept".to_string());
    logger.log(&mut pool, LogLevel::Trace, Some(LogLevel::Info), "dropped".to_string());
    logger.log(&mut pool, LogLevel::Error, None, "off".to_string());
    assert_eq!(read_logs(&pool), vec![(LogLevel::Warn, "kept".to_string())]);
}
