use nginx_ctl::errors::NginxError;
use nginx_ctl::logs::{log_kind_from_name, log_path, parse_log, resolve_log_path, LogKind};

#[test]
fn logs_cap_and_order_on_large_file() {
    let mut content = String::new();
    for i in 0..1500 {
        content.push_str(&format!("line{}\n", i));
    }
    let entries = parse_log(&content);
    assert_eq!(entries.len(), 1000);
    assert_eq!(entries[0].content, "line1499");
    assert_eq!(entries[1].content, "line1498");
    assert_eq!(entries[999].content, "line500");
}

#[test]
fn logs_reverse_order_small_file() {
    let entries = parse_log("a\nb\nc");
    assert_eq!(entries.len(), 3);
    assert_eq!(entries[0].content, "c");
    assert_eq!(entries[1].content, "b");
    assert_eq!(entries[2].content, "a");
}

#[test]
fn logs_trailing_newline_adds_no_entry() {
    let entries = parse_log("a\nb\n");
    assert_eq!(entries.len(), 2);
    assert_eq!(entries[0].content, "b");
}

#[test]
fn logs_timestamp_extracted() {
    let entries = parse_log("[2024-01-01 10:00:00] GET /");
    assert_eq!(entries.len(), 1);
    assert_eq!(entries[0].timestamp, "2024-01-01 10:00:00");
    assert_eq!(entries[0].content, "[2024-01-01 10:00:00] GET /");
}

#[test]
fn logs_timestamp_unknown_without_brackets() {
    let entries = parse_log("no brackets in this line");
    assert_eq!(entries[0].timestamp, "Unknown");
}

#[test]
fn logs_timestamp_unknown_with_lone_brackets() {
    assert_eq!(parse_log("only open [ here")[0].timestamp, "Unknown");
    assert_eq!(parse_log("only close ] here")[0].timestamp, "Unknown");
    assert_eq!(parse_log("closed ] before [ open")[0].timestamp, "Unknown");
}

#[test]
fn logs_timestamp_empty_brackets() {
    assert_eq!(parse_log("[] nothing inside")[0].timestamp, "");
}

#[test]
fn logs_read_after_clear_is_empty() {
    // clearing writes empty content; reading that content yields no entries
    let cleared_file_content = "";
    let entries = parse_log(cleared_file_content);
    assert_eq!(entries.len(), 0);
}

#[test]
fn logs_crlf_line_endings_are_split() {
    let entries = parse_log("a\r\nb\r\n");
    assert_eq!(entries.len(), 2);
    assert_eq!(entries[0].content, "b");
    assert_eq!(entries[1].content, "a");
}

#[test]
fn logs_lone_carriage_return_is_kept() {
    let entries = parse_log("a\rb");
    assert_eq!(entries.len(), 1);
    assert_eq!(entries[0].content, "a\rb");
}

#[test]
fn logs_kind_names_decode() {
    assert_eq!(log_kind_from_name("access"), Some(LogKind::Access));
    assert_eq!(log_kind_from_name("error"), Some(LogKind::Error));
    assert_eq!(log_kind_from_name("debug"), None);
    assert_eq!(log_kind_from_name(""), None);
}

#[test]
fn logs_paths_resolve() {
    assert_eq!(
        log_path("/usr/local/nginx/logs", LogKind::Access),
        "/usr/local/nginx/logs/access.log"
    );
    assert_eq!(
        log_path("/usr/local/nginx/logs", LogKind::Error),
        "/usr/local/nginx/logs/error.log"
    );
}

#[test]
fn logs_invalid_kind_rejected() {
    let r = resolve_log_path("/usr/local/nginx/logs", "debug");
    match r {
        Err(e) => {
            assert!(matches!(e, NginxError::InvalidArgument(_)));
            assert_eq!(e.message().as_str(), "Invalid log type");
        }
        Ok(_) => panic!("a debug log kind must be rejected"),
    }
}
