use chainsaw::config::{Config, Error};

fn test_logs(source: &[u8], expected: &[&str]) {
    let raw = Config::scan(source).unwrap();
    let mut got: Vec<Vec<u8>> = raw.logs.clone();
    got.sort();
    let mut want: Vec<Vec<u8>> = expected.iter().map(|s| s.as_bytes().to_vec()).collect();
    want.sort();
    assert_eq!(got, want);
}

#[test]
fn test_empty() {
    test_logs(b"", &[]);
}

#[test]
fn test_single() {
    test_logs(b"LOG foo\n", &["foo"]);
}

#[test]
fn test_many() {
    test_logs(b"LOG foo\nLOG bar\n", &["foo", "bar"]);
}

#[test]
fn test_comment() {
    test_logs(b"LOG foo\n#LOG bar\n", &["foo"]);
}

#[test]
fn full_config_parses() {
    let c = Config::new_from_buf_read(b"STORE /tmp/x\nLOG a\nLOG b\n").unwrap();
    assert_eq!(c.store, b"/tmp/x".to_vec());
    let mut logs = c.logs.clone();
    logs.sort();
    assert_eq!(logs, vec![b"a".to_vec(), b"b".to_vec()]);
}

#[test]
fn store_is_required() {
    let r = Config::new_from_buf_read(b"LOG foo\n");
    assert!(matches!(r, Err(Error::MissingStore)));
    let r = Config::new_from_buf_read(b"");
    assert!(matches!(r, Err(Error::MissingStore)));
}

#[test]
fn unknown_line_is_a_parse_error() {
    let r = Config::new_from_buf_read(b"STORE /tmp\nJUNK\n");
    assert!(matches!(r, Err(Error::ParseError)));
    // the keyword alone, without its trailing space, is not a LOG line
    let r = Config::new_from_buf_read(b"STORE /tmp\nLOG\n");
    assert!(matches!(r, Err(Error::ParseError)));
}

#[test]
fn duplicate_log_lines_collapse() {
    let c = Config::new_from_buf_read(b"STORE /s\nLOG x\nLOG x\nLOG x\n").unwrap();
    assert_eq!(c.logs, vec![b"x".to_vec()]);
}

#[test]
fn last_store_wins() {
    let c = Config::new_from_buf_read(b"STORE a\nSTORE b\nLOG l\n").unwrap();
    assert_eq!(c.store, b"b".to_vec());
}

#[test]
fn whitespace_is_trimmed() {
    let c = Config::new_from_buf_read(b"  STORE   /tmp/x \n\tLOG   spaced\t\n").unwrap();
    assert_eq!(c.store, b"/tmp/x".to_vec());
    assert_eq!(c.logs, vec![b"spaced".to_vec()]);
}

#[test]
fn blank_lines_and_comments_are_ignored() {
    let c = Config::new_from_buf_read(b"\n   \n# note\n  # note\nSTORE /s\n\nLOG a\n").unwrap();
    assert_eq!(c.store, b"/s".to_vec());
    assert_eq!(c.logs, vec![b"a".to_vec()]);
}

#[test]
fn carriage_returns_are_trimmed() {
    let c = Config::new_from_buf_read(b"STORE /s\r\nLOG foo\r\n").unwrap();
    assert_eq!(c.store, b"/s".to_vec());
    assert_eq!(c.logs, vec![b"foo".to_vec()]);
}

#[test]
fn final_line_needs_no_newline() {
    let c = Config::new_from_buf_read(b"STORE /s\nLOG a").unwrap();
    assert_eq!(c.logs, vec![b"a".to_vec()]);
}

#[test]
fn parsing_twice_means_the_same() {
    let text = b"STORE /tmp/x\nLOG a\nLOG b\n";
    let mut doubled = text.to_vec();
    doubled.extend_from_slice(text);
    let once = Config::new_from_buf_read(text).unwrap();
    let twice = Config::new_from_buf_read(&doubled).unwrap();
    assert_eq!(once.store, twice.store);
    let mut logs_once = once.logs.clone();
    logs_once.sort();
    let mut logs_twice = twice.logs.clone();
    logs_twice.sort();
    assert_eq!(logs_once, logs_twice);
}
