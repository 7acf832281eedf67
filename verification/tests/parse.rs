use exhash::{
    edit_text, format_lnhash, line_hash_u16, parse_commands_from_args, parse_commands_from_script,
    parse_commands_from_strs, Subcommand,
};

fn addr(lineno: usize, line: &str) -> String {
    format_lnhash(lineno, line)
}

#[test]
fn parse_delete_range() {
    let cmd = format!(
        "{}{},{}{}d",
        1,
        format!("|{:04x}|", line_hash_u16("a")),
        2,
        format!("|{:04x}|", line_hash_u16("b"))
    );
    let parsed = parse_commands_from_script(&cmd).unwrap();
    assert_eq!(parsed.len(), 1);
    assert!(matches!(parsed[0].cmd, Subcommand::Delete));
    assert!(parsed[0].has_comma);
}

#[test]
fn parse_append_reads_text_block() {
    let input = format!("{}a\nhello\nworld\n.\n", addr(1, "line"));
    let cmds = parse_commands_from_script(&input).unwrap();
    match &cmds[0].cmd {
        Subcommand::Append(t) => {
            assert_eq!(t, &vec!["hello".to_string(), "world".to_string()]);
        }
        _ => panic!("expected append"),
    }
}

#[test]
fn parse_global_with_subst() {
    let cmd = format!("{}g/foo/s/bar/baz/", addr(1, "x"));
    let cmds = parse_commands_from_script(&cmd).unwrap();
    match &cmds[0].cmd {
        Subcommand::Global { invert, pattern, cmd } => {
            assert!(!invert);
            assert_eq!(pattern, "foo");
            match cmd.as_ref() {
                Subcommand::Substitute(s) => {
                    assert_eq!(s.pattern, "bar");
                    assert_eq!(s.replacement, "baz");
                }
                _ => panic!("expected substitute"),
            }
        }
        _ => panic!("expected global"),
    }
}

#[test]
fn parse_unknown_flag_is_an_error() {
    let cmd = format!("{}s/a/b/q", addr(1, "x"));
    let err = parse_commands_from_script(&cmd).unwrap_err();
    assert!(err.message().contains("unknown substitute flag"));
}

#[test]
fn parse_unterminated_replacement_is_an_error() {
    let cmd = format!("{}s/a/b", addr(1, "x"));
    let err = parse_commands_from_script(&cmd).unwrap_err();
    assert!(err.message().contains("unterminated"));
}

#[test]
fn parse_terminated_replacement_with_empty_flags() {
    let cmd = format!("{}s/a/b/", addr(1, "x"));
    let cmds = parse_commands_from_script(&cmd).unwrap();
    match &cmds[0].cmd {
        Subcommand::Substitute(s) => {
            assert_eq!(s.pattern, "a");
            assert_eq!(s.replacement, "b");
            assert!(!s.global && !s.case_insensitive);
        }
        _ => panic!("expected substitute"),
    }
}

#[test]
fn parse_unterminated_pattern_is_an_error() {
    let cmd = format!("{}s/abc", addr(1, "x"));
    let err = parse_commands_from_script(&cmd).unwrap_err();
    assert!(err.message().contains("unterminated"));
}

#[test]
fn parse_escaped_delimiter_in_pattern() {
    let cmd = format!("{}s/a\\/b/x/", addr(1, "x"));
    let cmds = parse_commands_from_script(&cmd).unwrap();
    match &cmds[0].cmd {
        Subcommand::Substitute(s) => {
            assert_eq!(s.pattern, "a/b");
            assert_eq!(s.replacement, "x");
        }
        _ => panic!("expected substitute"),
    }
}

#[test]
fn parse_unterminated_text_block_is_an_error() {
    let script = format!("{}a\nhello", addr(1, "x"));
    let err = parse_commands_from_script(&script).unwrap_err();
    assert!(err.message().contains("unexpected EOF"));
}

#[test]
fn parse_zero_sentinel_in_range_is_an_error() {
    let script = format!("0|0000|,{}d", addr(2, "b"));
    let err = parse_commands_from_script(&script).unwrap_err();
    assert!(err.message().contains("ranges"));
}

#[test]
fn parse_zero_sentinel_needs_zero_hash() {
    let err = parse_commands_from_script("0|00ff|i\nX\n.\n").unwrap_err();
    assert!(err.message().contains("hash 0000"));
}

#[test]
fn parse_move_destination_zero_is_an_error() {
    let cmd = format!("{}m0|0000|", addr(1, "a"));
    let err = parse_commands_from_script(&cmd).unwrap_err();
    assert!(err.message().contains("not allowed for m"));
}

#[test]
fn parse_unknown_command_is_an_error() {
    let cmd = format!("{}q", addr(1, "a"));
    let err = parse_commands_from_script(&cmd).unwrap_err();
    assert!(err.message().contains("unknown command"));
}

#[test]
fn parse_indent_level_defaults_to_one() {
    let cmd = format!("{}>", addr(1, "a"));
    let cmds = parse_commands_from_script(&cmd).unwrap();
    match &cmds[0].cmd {
        Subcommand::Indent { levels } => assert_eq!(*levels, 1),
        _ => panic!("expected indent"),
    }
}

#[test]
fn strs_mode_takes_trailing_lines_as_text_block() {
    let one = format!("{}a\nX\nY", addr(1, "a"));
    let cmds = parse_commands_from_strs(&[one.as_str()]).unwrap();
    match &cmds[0].cmd {
        Subcommand::Append(t) => {
            assert_eq!(t, &vec!["X".to_string(), "Y".to_string()]);
        }
        _ => panic!("expected append"),
    }
    let res = edit_text("a\n", &cmds).unwrap();
    assert_eq!(res.lines, vec!["a".to_string(), "X".to_string(), "Y".to_string()]);
}

#[test]
fn strs_mode_rejects_extra_lines_for_plain_commands() {
    let one = format!("{}d\nstray", addr(1, "a"));
    let err = parse_commands_from_strs(&[one.as_str()]).unwrap_err();
    assert!(err.message().contains("unexpected multiline input"));
}

#[test]
fn args_mode_reads_blocks_from_shared_stream() {
    let a1 = format!("{}a", addr(1, "a"));
    let a2 = format!("{}a", addr(2, "b"));
    let args = vec![a1, a2];
    let stream = vec![
        "X".to_string(),
        ".".to_string(),
        "Y".to_string(),
        ".".to_string(),
    ];
    let cmds = parse_commands_from_args(&args, &stream).unwrap();
    assert_eq!(cmds.len(), 2);
    match (&cmds[0].cmd, &cmds[1].cmd) {
        (Subcommand::Append(t1), Subcommand::Append(t2)) => {
            assert_eq!(t1, &vec!["X".to_string()]);
            assert_eq!(t2, &vec!["Y".to_string()]);
        }
        _ => panic!("expected two appends"),
    }
}

#[test]
fn args_mode_runs_out_of_stream() {
    let a1 = format!("{}a", addr(1, "a"));
    let args = vec![a1];
    let stream: Vec<String> = vec!["X".to_string()];
    let err = parse_commands_from_args(&args, &stream).unwrap_err();
    assert!(err.message().contains("unexpected EOF"));
}

#[test]
fn parse_sort_keyword() {
    let cmd = format!("{},{}sort", addr(1, "a"), addr(2, "b"));
    let cmds = parse_commands_from_script(&cmd).unwrap();
    assert!(matches!(cmds[0].cmd, Subcommand::Sort));
}

#[test]
fn parse_v_is_inverted_global() {
    let cmd = format!("{}v/x/d", addr(1, "a"));
    let cmds = parse_commands_from_script(&cmd).unwrap();
    match &cmds[0].cmd {
        Subcommand::Global { invert, .. } => assert!(*invert),
        _ => panic!("expected global"),
    }
}
