use gucli::logfile::LOG_CAP;
use gucli::logfile::LineLimitedWriter;
use gucli::logfile::Log;
use gucli::logfile::LogRecord;
use gucli::logfile::flatten_message;

#[test]
fn fewer_appends_than_the_cap_keep_everything() {
    let mut log = Log::new(100);
    for k in 0..7u32 {
        log.append(format!("line {}", k));
    }
    assert_eq!(log.len(), 7);
    assert_eq!(log.line_at(0).as_str(), "line 0");
    assert_eq!(log.line_at(6).as_str(), "line 6");
}

#[test]
fn appends_beyond_the_cap_evict_the_oldest_first() {
    let mut log = Log::new(LOG_CAP);
    for k in 0..130u32 {
        log.append(format!("line {}", k));
    }
    // exactly min(K, cap) survive, insertion order preserved
    assert_eq!(log.len(), 100);
    assert_eq!(log.line_at(0).as_str(), "line 30");
    assert_eq!(log.line_at(99).as_str(), "line 129");
}

#[test]
fn distinct_appends_stay_distinct() {
    let mut log = Log::new(5);
    for k in 0..9u32 {
        log.append(format!("record {}", k));
    }
    assert_eq!(log.len(), 5);
    for a in 0..5 {
        for b in (a + 1)..5 {
            assert_ne!(log.line_at(a), log.line_at(b));
        }
    }
}

#[test]
fn a_zero_cap_log_keeps_nothing() {
    let mut log = Log::new(0);
    log.append("anything".to_string());
    assert_eq!(log.len(), 0);
}

#[test]
fn render_joins_lines_with_breaks() {
    let mut log = Log::new(10);
    log.append("a".to_string());
    log.append("b".to_string());
    assert_eq!(log.render(), "a\nb\n");
}

#[test]
fn record_render_is_one_line() {
    let rec = LogRecord {
        timestamp: "2024-01-02 03:04:05.678".to_string(),
        tag: "INFO".to_string(),
        message: "two\nlines".to_string(),
    };
    assert_eq!(rec.render(), "2024-01-02 03:04:05.678 INFO two lines");
}

#[test]
fn flatten_replaces_breaks_with_spaces() {
    assert_eq!(flatten_message("a\nb\rc"), "a b c");
    assert_eq!(flatten_message("plain"), "plain");
}

#[test]
fn rotated_content_appends_and_evicts() {
    let writer = LineLimitedWriter::new("gucli.log".to_string(), 3);
    let file = writer.make_writer();
    assert_eq!(file.path().as_str(), "gucli.log");
    // below the cap: the entry line is appended
    assert_eq!(file.rotated_content("a\nb\n", "c\n"), "a\nb\nc\n");
    // at the cap: the oldest line leaves
    assert_eq!(file.rotated_content("a\nb\nc\n", "d"), "b\nc\nd\n");
    // an absent file reads as empty content
    assert_eq!(file.rotated_content("", "first"), "first\n");
    // surrounding blanks of the entry are trimmed away
    assert_eq!(file.rotated_content("x\n", "  y  \n"), "x\ny\n");
}
