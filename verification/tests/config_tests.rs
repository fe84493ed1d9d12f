use nginx_ctl::config::{
    directive_str, rewrite_config, rewrite_config_named, variant_from_name, ConfigVariant,
};
use nginx_ctl::errors::NginxError;

const MARKER: &str = "# 这里写对应include的文件";

fn sample_config(extra_lines: &[&str]) -> String {
    let mut s = String::new();
    s.push_str("worker_processes 1;\nevents {\n    worker_connections 1024;\n}\nhttp {\n");
    s.push_str("        ");
    s.push_str(MARKER);
    s.push('\n');
    for l in extra_lines {
        s.push_str(l);
        s.push('\n');
    }
    s.push_str("}\n");
    s
}

fn directive_line_count(content: &str, v: ConfigVariant) -> usize {
    content
        .lines()
        .filter(|l| l.trim() == directive_str(v))
        .count()
}

const ALL: [ConfigVariant; 4] = [
    ConfigVariant::Main,
    ConfigVariant::H5,
    ConfigVariant::Tob,
    ConfigVariant::TobAdmin,
];

#[test]
fn config_idempotent_each_variant() {
    let base = sample_config(&[]);
    for v in ALL {
        let once = rewrite_config(&base, Some(v));
        let twice = rewrite_config(&once, Some(v));
        assert_eq!(once, twice);
    }
}

#[test]
fn config_idempotent_none() {
    let with_old = sample_config(&["        include ./yx_conf/yx_h5.conf;"]);
    let once = rewrite_config(&with_old, None);
    let twice = rewrite_config(&once, None);
    assert_eq!(once, twice);
}

#[test]
fn config_exclusive_after_switch() {
    let mut content = sample_config(&[]);
    // switch through all variants in a row; after each, exactly one
    // known include line is present, the matching one
    for v in ALL {
        content = rewrite_config(&content, Some(v));
        for w in ALL {
            let expect = if w == v { 1 } else { 0 };
            assert_eq!(directive_line_count(&content, w), expect);
        }
    }
}

#[test]
fn config_clearing_removes_all() {
    let dirty = sample_config(&[
        "        include ./yx_conf/yx_main.conf;",
        "        include ./yx_conf/yx_tob.conf;",
        "include ./yx_conf/yx_tob_admin.conf;",
        "   include ./yx_conf/yx_h5.conf;   ",
    ]);
    let cleared = rewrite_config(&dirty, None);
    for v in ALL {
        assert_eq!(directive_line_count(&cleared, v), 0);
        assert!(!cleared.contains(directive_str(v)));
    }
}

#[test]
fn config_insertion_goes_after_marker() {
    let base = sample_config(&[]);
    let out = rewrite_config(&base, Some(ConfigVariant::Main));
    let expected_pair = format!(
        "        {}\n        {}",
        MARKER,
        directive_str(ConfigVariant::Main)
    );
    assert!(out.contains(&expected_pair));
}

#[test]
fn config_without_marker_succeeds_without_insert() {
    let content = "events {}\nhttp {\n        include ./yx_conf/yx_h5.conf;\n}";
    let out = rewrite_config(content, Some(ConfigVariant::Main));
    // the stale include is removed, but with no marker nothing is inserted
    assert_eq!(out, "events {}\nhttp {\n}");
}

#[test]
fn config_unknown_name_only_clears() {
    let base = sample_config(&["        include ./yx_conf/yx_tob.conf;"]);
    let by_name = rewrite_config_named(&base, "yx_something_else");
    let cleared = rewrite_config(&base, None);
    assert_eq!(by_name, cleared);
    for v in ALL {
        assert_eq!(directive_line_count(&by_name, v), 0);
    }
}

#[test]
fn config_named_matches_enum() {
    let base = sample_config(&[]);
    assert_eq!(
        rewrite_config_named(&base, "yx_tob_admin"),
        rewrite_config(&base, Some(ConfigVariant::TobAdmin))
    );
}

#[test]
fn variant_names_decode() {
    assert_eq!(variant_from_name("yx_main"), Some(ConfigVariant::Main));
    assert_eq!(variant_from_name("yx_h5"), Some(ConfigVariant::H5));
    assert_eq!(variant_from_name("yx_tob"), Some(ConfigVariant::Tob));
    assert_eq!(
        variant_from_name("yx_tob_admin"),
        Some(ConfigVariant::TobAdmin)
    );
    assert_eq!(variant_from_name("yx_main "), None);
    assert_eq!(variant_from_name(""), None);
    assert_eq!(variant_from_name("main"), None);
}

#[test]
fn config_marker_with_trailing_text_splits_there() {
    let content = format!("http {{\n    {} tail\n}}", MARKER);
    let out = rewrite_config(&content, Some(ConfigVariant::Tob));
    let expected = format!(
        "http {{\n    {}\n        {} tail\n}}",
        MARKER,
        directive_str(ConfigVariant::Tob)
    );
    assert_eq!(out, expected);
}

#[test]
fn config_error_io_kind_carries_text() {
    let e = NginxError::Io("No such file or directory".to_string());
    assert!(matches!(e, NginxError::Io(_)));
    assert_eq!(e.message().as_str(), "No such file or directory");
}

#[test]
fn config_preserves_other_lines() {
    let base = sample_config(&["    server {", "    }"]);
    let out = rewrite_config(&base, Some(ConfigVariant::H5));
    assert!(out.contains("worker_processes 1;"));
    assert!(out.contains("    server {"));
    assert!(out.contains("    worker_connections 1024;"));
}
