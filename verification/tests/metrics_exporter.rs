//! Disk counters as text.
use magpie_bt::metrics_exporter::{escape_label, render_disk_metrics};
use magpie_bt::session::DiskMetrics;

fn metrics(p: u64, b: u64, vf: u64, io: u64) -> DiskMetrics {
    DiskMetrics { pieces_written: p, bytes_written: b, piece_verify_fail: vf, io_failures: io }
}

#[test]
fn renders_each_counter_with_help_and_type() {
    let m = metrics(7, 1024, 1, 2);
    let text = render_disk_metrics("torrent42", &m);
    // Each counter has HELP, TYPE, and a value line.
    for name in &[
        "magpie_disk_pieces_written",
        "magpie_disk_bytes_written",
        "magpie_disk_piece_verify_fail",
        "magpie_disk_io_failures",
    ] {
        assert!(text.contains(&format!("# HELP {name}")), "missing HELP for {name}");
        assert!(text.contains(&format!("# TYPE {name} counter")), "missing TYPE for {name}");
        assert!(
            text.contains(&format!(r#"{name}{{torrent="torrent42"}}"#)),
            "missing value line for {name}"
        );
    }
    // Values are exactly what the counters held.
    assert!(text.contains(r#"magpie_disk_pieces_written{torrent="torrent42"} 7"#));
    assert!(text.contains(r#"magpie_disk_bytes_written{torrent="torrent42"} 1024"#));
    assert!(text.contains(r#"magpie_disk_piece_verify_fail{torrent="torrent42"} 1"#));
    assert!(text.contains(r#"magpie_disk_io_failures{torrent="torrent42"} 2"#));
}

#[test]
fn label_special_chars_are_escaped() {
    // Per Prometheus text format: backslash, double-quote, newline
    // must be escaped. The renderer takes care of this so consumers
    // don't accidentally produce malformed exposition. Test using a
    // real newline char to verify the newline escape path.
    let m = metrics(0, 0, 0, 0);
    let raw = "weird\"\\name\nhere"; // ", \, then a real newline
    let text = render_disk_metrics(raw, &m);
    // Each special char appears in its escaped form.
    assert!(text.contains("weird\\\"\\\\name\\nhere"), "got: {text}");
    // And the raw newline does NOT leak into the exposition (would
    // break a Prometheus parser mid-line).
    assert!(!text.contains(raw), "raw newline must not appear");
}

#[test]
fn produces_valid_text_format_lines() {
    // Each non-comment line must match `<name>{<labels>} <value>`.
    // Comments start with `#`. No blank lines in the middle.
    let m = metrics(1, 2, 3, 4);
    let text = render_disk_metrics("t", &m);
    for line in text.lines() {
        assert!(!line.is_empty(), "no blank lines allowed");
        if line.starts_with('#') {
            assert!(
                line.starts_with("# HELP ") || line.starts_with("# TYPE "),
                "comment must be HELP or TYPE: {line:?}"
            );
        } else {
            // value line: name{labels} value
            assert!(line.contains('{') && line.contains('}'));
            let value: u64 = line
                .rsplit(' ')
                .next()
                .expect("value present")
                .parse()
                .expect("value parses as u64");
            let _ = value; // just check it parses
        }
    }
}

#[test]
fn whole_text() {
    let text = render_disk_metrics("ab", &metrics(1, 2, 3, 18_446_744_073_709_551_615));
    let expected = "# HELP magpie_disk_pieces_written Total pieces verified and persisted to storage.\n\
        # TYPE magpie_disk_pieces_written counter\n\
        magpie_disk_pieces_written{torrent=\"ab\"} 1\n\
        # HELP magpie_disk_bytes_written Total bytes written to storage across all verified pieces.\n\
        # TYPE magpie_disk_bytes_written counter\n\
        magpie_disk_bytes_written{torrent=\"ab\"} 2\n\
        # HELP magpie_disk_piece_verify_fail Pieces whose hash did not match after disk write.\n\
        # TYPE magpie_disk_piece_verify_fail counter\n\
        magpie_disk_piece_verify_fail{torrent=\"ab\"} 3\n\
        # HELP magpie_disk_io_failures Disk I/O errors observed (read or write).\n\
        # TYPE magpie_disk_io_failures counter\n\
        magpie_disk_io_failures{torrent=\"ab\"} 18446744073709551615\n";
    assert_eq!(text, expected);
}

#[test]
fn escaping_keeps_labels_apart() {
    assert_eq!(escape_label("plain"), "plain");
    assert_eq!(escape_label("a\nb"), "a\\nb");
    assert_eq!(escape_label("a\\nb"), "a\\\\nb");
    assert_ne!(escape_label("a\nb"), escape_label("a\\nb"));
    assert!(!escape_label("x\n\n").contains('\n'));
}
