use sandworm::{
    denylist, distinct_paths, is_excluded_dir_name, make_preview, merge_batches, plan_report,
    scan_lines, should_scan, ws_pattern_source, Finding, PatternError, Report, ReportLine,
    WsPattern,
};

fn pattern(n: usize) -> WsPattern {
    WsPattern::new(n).expect("pattern compiles")
}

fn lines(v: &[Option<&str>]) -> Vec<Option<String>> {
    v.iter().map(|l| l.map(|s| s.to_string())).collect()
}

fn finding(path: &str, line_num: usize, ws_count: usize) -> Finding {
    Finding {
        path: path.to_string(),
        line_num,
        ws_count,
        preview: format!("preview of {}", line_num),
    }
}

#[test]
fn zero_threshold_is_rejected() {
    assert!(matches!(WsPattern::new(0), Err(PatternError::ZeroThreshold)));
    assert_eq!(pattern(7).min_run(), 7);
}

#[test]
fn run_of_sixty_between_letters() {
    let line = format!("x{}y", " ".repeat(60));
    let m = pattern(50).find(&line).expect("a match");
    assert_eq!(m.start, 1);
    assert_eq!(m.len, 60);
    let path = "dir/file.js".to_string();
    let found = scan_lines(&pattern(50), &path, &vec![Some(line.clone())]);
    assert_eq!(found.len(), 1);
    assert_eq!(found[0].line_num, 1);
    assert_eq!(found[0].ws_count, 60);
    assert_eq!(found[0].path, path);
    assert_eq!(found[0].preview, line);
}

#[test]
fn run_shorter_than_threshold_never_matches() {
    let p = pattern(50);
    assert!(p.find(&" ".repeat(49)).is_none());
    let found = scan_lines(&p, &"f".to_string(), &vec![Some(" ".repeat(49))]);
    assert!(found.is_empty());
}

#[test]
fn run_exactly_threshold_matches() {
    let p = pattern(50);
    let m = p.find(&" ".repeat(50)).expect("a match");
    assert_eq!((m.start, m.len), (0, 50));
}

#[test]
fn first_qualifying_run_is_reported() {
    let p = pattern(3);
    let line = "a  b    c      d";
    let m = p.find(line).expect("a match");
    assert_eq!((m.start, m.len), (4, 4));
}

#[test]
fn tabs_and_spaces_form_one_run() {
    let p = pattern(4);
    let m = p.find("x \t \t \ty").expect("a match");
    assert_eq!((m.start, m.len), (1, 6));
    assert!(p.find("x\n\n\n\n\ny").is_none());
}

#[test]
fn run_after_multibyte_text_counts_characters() {
    let p = pattern(5);
    let line = "héllo      wörld";
    let m = p.find(line).expect("a match");
    assert_eq!(m.len, 6);
    assert_eq!(m.start, 6);
}

#[test]
fn scan_keeps_line_order_and_numbers() {
    let p = pattern(5);
    let ls = lines(&[
        Some("clean"),
        Some("a      b"),
        Some(""),
        Some("\t\t\t\t\t\t\t"),
        Some("none here"),
    ]);
    let found = scan_lines(&p, &"f".to_string(), &ls);
    let nums: Vec<usize> = found.iter().map(|f| f.line_num).collect();
    assert_eq!(nums, vec![2, 4]);
    assert_eq!(found[0].ws_count, 6);
    assert_eq!(found[1].ws_count, 7);
}

#[test]
fn undecodable_line_stops_the_file() {
    let p = pattern(5);
    let ls = lines(&[
        Some("x      y"),
        None,
        Some("z          w"),
    ]);
    let found = scan_lines(&p, &"bin".to_string(), &ls);
    assert_eq!(found.len(), 1);
    assert_eq!(found[0].line_num, 1);
}

#[test]
fn binary_file_among_clean_files_leaves_others_alone() {
    let p = pattern(5);
    let clean = scan_lines(&p, &"a.txt".to_string(), &lines(&[Some("plain text")]));
    let binary = scan_lines(&p, &"b.bin".to_string(), &lines(&[None]));
    let dirty = scan_lines(&p, &"c.js".to_string(), &lines(&[Some("ok"), Some("q        r")]));
    let totals = merge_batches(vec![clean, binary, dirty]);
    assert_eq!(totals.files_scanned, 3);
    assert_eq!(totals.findings.len(), 1);
    assert_eq!(totals.findings[0].path, "c.js");
    assert_eq!(totals.findings[0].line_num, 2);
}

#[test]
fn empty_file_has_no_findings() {
    let found = scan_lines(&pattern(1), &"empty".to_string(), &Vec::new());
    assert!(found.is_empty());
    assert!(!should_scan(true, 0, 10_000_000));
}

#[test]
fn skip_policy() {
    assert!(should_scan(true, 1, 10_000_000));
    assert!(should_scan(true, 10_000_000, 10_000_000));
    assert!(!should_scan(true, 10_000_001, 10_000_000));
    assert!(!should_scan(false, 100, 10_000_000));
    assert!(!should_scan(true, 0, 10_000_000));
}

#[test]
fn short_line_preview_is_the_line() {
    let line = "a".repeat(120);
    assert_eq!(make_preview(&line), line);
    assert_eq!(make_preview(""), "");
}

#[test]
fn long_ascii_line_is_cut_at_limit() {
    let line = "b".repeat(200);
    let p = make_preview(&line);
    assert_eq!(p.len(), 123);
    assert_eq!(p, format!("{}...", "b".repeat(120)));
}

#[test]
fn long_line_is_cut_at_character_boundary() {
    let even = "é".repeat(100);
    assert_eq!(make_preview(&even), format!("{}...", "é".repeat(60)));
    let odd = format!("a{}", "é".repeat(100));
    let p = make_preview(&odd);
    assert_eq!(p, format!("a{}...", "é".repeat(59)));
    assert!(p.chars().count() <= 123);
}

#[test]
fn finding_preview_is_truncated() {
    let line = format!("{}{}", " ".repeat(60), "z".repeat(100));
    let found = scan_lines(&pattern(50), &"f".to_string(), &vec![Some(line)]);
    assert_eq!(found.len(), 1);
    assert_eq!(found[0].preview, format!("{}{}...", " ".repeat(60), "z".repeat(60)));
}

#[test]
fn denylisted_names_are_excluded() {
    for name in [
        "node_modules", ".git", "vendor", ".pnpm", "dist", "build", ".cache", "__pycache__",
        ".venv", "venv", ".tox",
    ] {
        assert!(is_excluded_dir_name(name), "{}", name);
    }
    assert_eq!(denylist().len(), 11);
}

#[test]
fn other_names_are_walked() {
    for name in ["src", "Node_modules", ".github", "builds", "", ".gitignore", "vendors"] {
        assert!(!is_excluded_dir_name(name), "{}", name);
    }
}

#[test]
fn merge_keeps_batch_order() {
    let totals = merge_batches(vec![
        vec![finding("a", 1, 50), finding("a", 3, 60)],
        vec![],
        vec![finding("b", 2, 70)],
    ]);
    assert_eq!(totals.files_scanned, 3);
    let got: Vec<(String, usize, usize)> = totals
        .findings
        .iter()
        .map(|f| (f.path.clone(), f.line_num, f.ws_count))
        .collect();
    assert_eq!(
        got,
        vec![("a".to_string(), 1, 50), ("a".to_string(), 3, 60), ("b".to_string(), 2, 70)]
    );
}

#[test]
fn merge_of_nothing() {
    let totals = merge_batches(Vec::new());
    assert_eq!(totals.files_scanned, 0);
    assert!(totals.findings.is_empty());
}

#[test]
fn rescanning_gives_same_findings() {
    let p = pattern(5);
    let ls = lines(&[Some("a      b"), Some("c"), Some("      ")]);
    let first = scan_lines(&p, &"f".to_string(), &ls);
    let second = scan_lines(&p, &"f".to_string(), &ls);
    let key = |v: &Vec<Finding>| -> Vec<(String, usize, usize)> {
        v.iter().map(|f| (f.path.clone(), f.line_num, f.ws_count)).collect()
    };
    assert_eq!(key(&first), key(&second));
}

#[test]
fn no_findings_gives_clean_report() {
    assert!(matches!(plan_report(&Vec::new(), true), Report::Clean));
}

#[test]
fn distinct_paths_in_first_arrival_order() {
    let fs = vec![
        finding("b", 1, 50),
        finding("a", 2, 50),
        finding("b", 3, 50),
        finding("a", 4, 50),
    ];
    assert_eq!(distinct_paths(&fs), vec!["b".to_string(), "a".to_string()]);
}

#[test]
fn report_groups_adjacent_findings() {
    let fs = vec![finding("a", 1, 50), finding("a", 3, 51), finding("b", 2, 52), finding("a", 9, 53)];
    match plan_report(&fs, false) {
        Report::Found { file_count, lines } => {
            assert_eq!(file_count, 2);
            let headers: Vec<String> = lines
                .iter()
                .filter_map(|l| match l {
                    ReportLine::FileHeader(p) => Some(p.clone()),
                    _ => None,
                })
                .collect();
            assert_eq!(headers, vec!["a".to_string(), "b".to_string(), "a".to_string()]);
            assert_eq!(lines.len(), 7);
            assert!(matches!(lines[1], ReportLine::Entry { line_num: 1, ws_count: 50 }));
            assert!(!lines.iter().any(|l| matches!(l, ReportLine::Preview(_))));
        }
        Report::Clean => panic!("expected findings"),
    }
}

#[test]
fn verbose_report_carries_previews() {
    let fs = vec![finding("a", 1, 50)];
    match plan_report(&fs, true) {
        Report::Found { file_count, lines } => {
            assert_eq!(file_count, 1);
            assert_eq!(lines.len(), 3);
            assert!(matches!(&lines[2], ReportLine::Preview(p) if p == "preview of 1"));
        }
        Report::Clean => panic!("expected findings"),
    }
}

#[test]
fn pattern_source_text() {
    assert_eq!(ws_pattern_source(50), "[ \\t]{50,}");
    assert_eq!(ws_pattern_source(1), "[ \\t]{1,}");
    assert_eq!(ws_pattern_source(0), "[ \\t]{0,}");
    assert_eq!(ws_pattern_source(1234567), "[ \\t]{1234567,}");
    assert_eq!(ws_pattern_source(10), "[ \\t]{10,}");
}
