use dexopt_status::dump::Analyzer;

#[test]
fn test_analyzer_parsing() {
    let sample_dump = r#"
[com.example.app]
  arm64: [status=speed-profile] [reason=bg-dexopt] [primary-abi]
[com.system.service]
  arm64: [status=verify] [reason=prebuilt]
"#;
    let analyzer = Analyzer::new(sample_dump);

    let info_app = analyzer.get_info("com.example.app").unwrap();
    assert_eq!(info_app.len(), 1);
    assert_eq!(info_app[0].status, "speed-profile");

    let info_sys = analyzer.get_info("com.system.service").unwrap();
    assert_eq!(info_sys.len(), 1);
    assert_eq!(info_sys[0].status, "verify");

    assert!(analyzer.get_info("non.existent").is_none());
}

#[test]
fn header_scoping_gives_one_entry_per_header() {
    let analyzer = Analyzer::new("[a]\n  arm64: [status=speed-profile]\n[b]\n  arm64: [status=verify]\n");
    let a = analyzer.get_info("a").unwrap();
    assert_eq!(a.len(), 1);
    assert_eq!(a[0].status, "speed-profile");
    assert_eq!(a[0].raw_line, "arm64: [status=speed-profile]");
    let b = analyzer.get_info("b").unwrap();
    assert_eq!(b.len(), 1);
    assert_eq!(b[0].status, "verify");
    assert!(analyzer.get_info("c").is_none());
    assert!(analyzer.get_info("[a]").is_none());
}

#[test]
fn record_without_status_field_is_unknown() {
    let analyzer = Analyzer::new("[pkg]\n  arm: [reason=install] [primary-abi]\n");
    let info = analyzer.get_info("pkg").unwrap();
    assert_eq!(info.len(), 1);
    assert_eq!(info[0].status, "unknown");
}

#[test]
fn filter_field_gives_the_status() {
    let analyzer = Analyzer::new("[pkg]\n  arm64: [filter=quicken] [status=speed]\n");
    assert_eq!(analyzer.get_info("pkg").unwrap()[0].status, "quicken");
}

#[test]
fn field_needs_a_word_boundary_and_a_value() {
    let analyzer = Analyzer::new("[pkg]\n  arm64: [xstatus=verify] [status=] [status=everything]\n");
    assert_eq!(analyzer.get_info("pkg").unwrap()[0].status, "everything");
}

#[test]
fn value_stops_at_bracket_or_space() {
    let analyzer = Analyzer::new("[p]\narm64: status=run-from-apk reason=boot\n[q]\narm:[status=verify]x\n");
    assert_eq!(analyzer.get_info("p").unwrap()[0].status, "run-from-apk");
    assert_eq!(analyzer.get_info("q").unwrap()[0].status, "verify");
}

#[test]
fn lines_before_any_header_are_dropped() {
    let analyzer = Analyzer::new("  arm64: [status=speed]\narm: [status=verify]\n[pkg]\n  arm64: [status=quicken]\n");
    let info = analyzer.get_info("pkg").unwrap();
    assert_eq!(info.len(), 1);
    assert_eq!(info[0].status, "quicken");
}

#[test]
fn malformed_headers_do_not_change_scope() {
    let dump = "[good]\n[bad name]\n  arm64: [status=speed]\n[x=y]\n  arm: [status=verify]\n[open\n  arm64: [status=error]\n";
    let analyzer = Analyzer::new(dump);
    let info = analyzer.get_info("good").unwrap();
    assert_eq!(info.len(), 3);
    assert_eq!(info[0].status, "speed");
    assert_eq!(info[1].status, "verify");
    assert_eq!(info[2].status, "error");
    assert!(analyzer.get_info("bad name").is_none());
}

#[test]
fn lines_without_architecture_tag_are_ignored() {
    let analyzer = Analyzer::new("[pkg]\n  x86_64: [status=speed]\n  path: /data/app/base.apk\n");
    assert!(analyzer.get_info("pkg").is_none());
}

#[test]
fn records_keep_dump_order_across_repeated_headers() {
    let dump = "[a]\r\n arm64: [status=speed]\r\n[b]\n arm: [status=verify]\n[a]\n arm: [status=quicken]";
    let analyzer = Analyzer::new(dump);
    let a = analyzer.get_info("a").unwrap();
    assert_eq!(a.len(), 2);
    assert_eq!(a[0].status, "speed");
    assert_eq!(a[0].raw_line, "arm64: [status=speed]");
    assert_eq!(a[1].status, "quicken");
    assert_eq!(analyzer.get_info("b").unwrap()[0].status, "verify");
}

#[test]
fn empty_dump_has_no_entries() {
    let analyzer = Analyzer::new("");
    assert!(analyzer.get_info("").is_none());
    assert!(analyzer.get_info("a").is_none());
}

#[test]
fn parsing_twice_gives_the_same_index() {
    let dump = "[a]\n arm64: [status=speed]\n arm: [status=verify]\n[b]\n arm64: [reason=x]\n";
    let first = Analyzer::new(dump);
    let second = Analyzer::new(dump);
    for name in ["a", "b", "c"] {
        let x = first.get_info(name);
        let y = second.get_info(name);
        assert_eq!(x.is_some(), y.is_some());
        if let (Some(x), Some(y)) = (x, y) {
            assert_eq!(x.len(), y.len());
            for (p, q) in x.iter().zip(y.iter()) {
                assert_eq!(p.raw_line, q.raw_line);
                assert_eq!(p.status, q.status);
            }
        }
    }
}

#[test]
fn value_stops_at_opening_bracket() {
    let analyzer = Analyzer::new("[p]\narm:status=a[b\n");
    assert_eq!(analyzer.get_info("p").unwrap()[0].status, "a");
}

#[test]
fn field_after_non_ascii_letter_is_not_a_field() {
    let analyzer = Analyzer::new("[p]\narm64: \u{e9}status=speed\n");
    assert_eq!(analyzer.get_info("p").unwrap()[0].status, "unknown");
}
