use disk_analyzer::system::{launch_entry, parse_df, process_rows, DfError};
use disk_analyzer::tokens::{parse_number, split_lines, split_words};

fn chars(s: &str) -> Vec<char> {
    s.chars().collect()
}

fn texts(v: Vec<Vec<char>>) -> Vec<String> {
    v.into_iter().map(|w| w.into_iter().collect()).collect()
}

#[test]
fn lines_follow_str_lines() {
    for s in ["", "a", "a\n", "a\n\nb", "foo\r\nbar\n\nbaz\r", "\n", "x\r\n"] {
        let expected: Vec<String> = s.lines().map(|l| l.to_string()).collect();
        assert_eq!(texts(split_lines(&chars(s))), expected, "{:?}", s);
    }
}

#[test]
fn words_follow_split_whitespace() {
    for s in ["", "  a  b\tc\n", "one", "x\u{3000}y\u{a0}z", "  "] {
        let expected: Vec<String> = s.split_whitespace().map(|l| l.to_string()).collect();
        assert_eq!(texts(split_words(&chars(s))), expected, "{:?}", s);
    }
}

#[test]
fn numbers_follow_str_parse() {
    for s in ["0", "42", "+7", "+", "", "-1", "12a", "18446744073709551615", "18446744073709551616", "007"] {
        assert_eq!(parse_number(&chars(s), u64::MAX), s.parse::<u64>().ok(), "{:?}", s);
        assert_eq!(parse_number(&chars(s), u32::MAX as u64), s.parse::<u32>().ok().map(|v| v as u64), "{:?}", s);
    }
    assert_eq!(parse_number(&chars("4294967296"), u32::MAX as u64), None);
}

#[test]
fn df_output_totals() {
    let out = "Filesystem 1024-blocks Used Available Capacity Mounted on\n/dev/disk1s1 488245288 300000000 180000000 63% /\n";
    let t = parse_df(out).ok().unwrap();
    assert_eq!(t.total_bytes, 488245288 * 1024);
    assert_eq!(t.used_bytes, 300000000 * 1024);
    assert_eq!(t.free_bytes, 180000000 * 1024);
}

#[test]
fn df_output_errors() {
    assert!(matches!(parse_df("only a header\n"), Err(DfError::UnexpectedOutput)));
    assert!(matches!(parse_df("h\n/dev 1 2\n"), Err(DfError::CannotParse)));
    let t = parse_df("h\n/dev x 5 99999999999999999999\n").ok().unwrap();
    assert_eq!(t.total_bytes, 0);
    assert_eq!(t.used_bytes, 5120);
    assert_eq!(t.free_bytes, 0);
    assert_eq!(DfError::CannotParse.message(), "Cannot parse df output");
}

#[test]
fn ps_rows() {
    let out = "  PID  %CPU    RSS COMM\n  101  12.5  20480 /usr/bin/some tool\nbad line\n  7 0.0 100 launchd\n  9 1 1 /x/y\n";
    let rows = process_rows(out, Some(3));
    assert_eq!(rows.len(), 2);
    assert_eq!(rows[0].pid, 101);
    assert_eq!(rows[0].cpu_text, "12.5");
    assert_eq!(rows[0].rss_text, "20480");
    assert_eq!(rows[0].command, "/usr/bin/some tool");
    assert_eq!(rows[0].name, "some tool");
    assert_eq!(rows[1].name, "launchd");
    assert_eq!(process_rows(out, None).len(), 3);
    assert!(process_rows("", None).is_empty());
}

#[test]
fn launch_entries() {
    let e = launch_entry("com.example.agent.plist").unwrap();
    assert_eq!(e.name, "com.example.agent");
    assert!(e.enabled);
    let d = launch_entry("com.example.disabled.plist").unwrap();
    assert!(!d.enabled);
    assert!(launch_entry("notes.txt").is_none());
    assert!(launch_entry(".plist").is_none());
    assert!(launch_entry("agent.PLIST").is_none());
}
