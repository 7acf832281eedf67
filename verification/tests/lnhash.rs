use exhash::{format_lnhash, line_hash_u16, parse_lnhash, parse_lnhash_prefix};
use exhash::{edit_text, parse_commands_from_script};

#[test]
fn lnhash_roundtrip() {
    let line = "hello world";
    let addr = format_lnhash(12, line);
    assert!(addr.starts_with("12|"));
    assert!(addr.ends_with('|'));
    let parsed = parse_lnhash(&addr).unwrap();
    assert_eq!(parsed.lineno, 12);
    assert_eq!(parsed.hash, line_hash_u16(line));
}

#[test]
fn parse_prefix_returns_suffix() {
    let (lh, rest) = parse_lnhash_prefix("3|00ff|d").unwrap();
    assert_eq!(lh.lineno, 3);
    assert_eq!(lh.hash, 0x00ff);
    assert_eq!(rest, "d");
}

#[test]
fn line_hash_returns_4_hex_chars() {
    let h = format!("{:04x}", line_hash_u16("hello"));
    assert_eq!(h.len(), 4);
    assert!(h.chars().all(|c| c.is_ascii_hexdigit()));
}

#[test]
fn lnhash_format() {
    let addr = format_lnhash(1, "hello");
    assert!(addr.starts_with("1|"));
    assert!(addr.ends_with("|"));
}

#[test]
fn lnhashview_lines() {
    let lines: Vec<String> = "a\nb\nc"
        .lines()
        .enumerate()
        .map(|(i, l)| format!("{}  {}", format_lnhash(i + 1, l), l))
        .collect();
    assert_eq!(lines.len(), 3);
    assert!(lines[0].ends_with("  a"));
    assert!(lines[2].ends_with("  c"));
}

#[test]
fn edit_script_substitute() {
    let text = "a\nb\nc\n";
    let a2 = format_lnhash(2, "b");
    let script = format!("{}s/b/B/\n", a2);
    let cmds = parse_commands_from_script(&script).unwrap();
    let res = edit_text(text, &cmds).unwrap();
    assert_eq!(res.lines.join("\n"), "a\nB\nc");
    assert_eq!(res.modified, vec![2]);
}

#[test]
fn format_is_exactly_lineno_bar_hash_bar() {
    let line = "some line";
    let addr = format_lnhash(42, line);
    let expected = format!("42|{:04x}|", line_hash_u16(line));
    assert_eq!(addr, expected);
}

#[test]
fn parse_rejects_uppercase_hex() {
    assert!(parse_lnhash("3|00FF|").is_err());
}

#[test]
fn parse_rejects_bad_segments() {
    assert!(parse_lnhash("").is_err());
    assert!(parse_lnhash("12").is_err());
    assert!(parse_lnhash("|abcd|").is_err());
    assert!(parse_lnhash("x|abcd|").is_err());
    assert!(parse_lnhash("3|abc|").is_err());
    assert!(parse_lnhash("3|abcde|").is_err());
    assert!(parse_lnhash("3|abcd").is_err());
    assert!(parse_lnhash("3|abcd|x").is_err());
}

#[test]
fn parse_accepts_zero_sentinel_form() {
    let lh = parse_lnhash("0|0000|").unwrap();
    assert_eq!(lh.lineno, 0);
    assert_eq!(lh.hash, 0);
}
