use exhash::{edit_text, format_lnhash, line_hash_u16, parse_commands_from_script};

fn addr(lineno: usize, line: &str) -> String {
    format_lnhash(lineno, line)
}

#[test]
fn verify_rejects_stale_hash() {
    let input = "hello\nworld\n";
    let stale = format!("1|{:04x}|d", line_hash_u16("HELLO"));
    let cmds = parse_commands_from_script(&stale).unwrap();
    let err = edit_text(input, &cmds).unwrap_err();
    assert!(err.message().contains("stale"));
}

#[test]
fn delete_range_updates_deleted() {
    let input = "a\nb\nc\n";
    let cmd = format!("{},{}d", addr(1, "a"), addr(2, "b"));
    let cmds = parse_commands_from_script(&cmd).unwrap();
    let res = edit_text(input, &cmds).unwrap();
    assert_eq!(res.lines, vec!["c".to_string()]);
    assert_eq!(res.deleted, vec![1, 2]);
}

#[test]
fn delete_middle_range() {
    let input = "a\nb\nc\nd\n";
    let cmd = format!("{},{}d", addr(2, "b"), addr(3, "c"));
    let cmds = parse_commands_from_script(&cmd).unwrap();
    let res = edit_text(input, &cmds).unwrap();
    assert_eq!(res.lines, vec!["a".to_string(), "d".to_string()]);
    assert_eq!(res.deleted, vec![2, 3]);
}

#[test]
fn substitute_lenient_no_match() {
    let input = "abc\n";
    let cmd = format!("{}s/zzz/yyy/", addr(1, "abc"));
    let cmds = parse_commands_from_script(&cmd).unwrap();
    let res = edit_text(input, &cmds).unwrap();
    assert_eq!(res.lines, vec!["abc".to_string()]);
    assert!(res.modified.is_empty());
}

#[test]
fn substitute_global_case_insensitive() {
    let input = "Foo foo\n";
    let cmd = format!("{}s/foo/bar/gi", addr(1, "Foo foo"));
    let cmds = parse_commands_from_script(&cmd).unwrap();
    let res = edit_text(input, &cmds).unwrap();
    assert_eq!(res.lines, vec!["bar bar".to_string()]);
    assert_eq!(res.modified, vec![1]);
}

#[test]
fn insert_before_first_line_using_zero_address() {
    let input = "b\n";
    let script = "0|0000|i\na\n.\n";
    let cmds = parse_commands_from_script(script).unwrap();
    let res = edit_text(input, &cmds).unwrap();
    assert_eq!(res.lines, vec!["a".to_string(), "b".to_string()]);
    assert_eq!(res.modified, vec![1]);
}

#[test]
fn join_single_address_joins_with_next() {
    let input = "hello\nworld\n";
    let cmd = format!("{}j", addr(1, "hello"));
    let cmds = parse_commands_from_script(&cmd).unwrap();
    let res = edit_text(input, &cmds).unwrap();
    assert_eq!(res.lines, vec!["hello world".to_string()]);
    assert_eq!(res.modified, vec![1]);
    assert_eq!(res.deleted, vec![2]);
}

#[test]
fn join_keeps_existing_whitespace_at_seam() {
    let input = "left \nright\n";
    let cmd = format!("{}j", addr(1, "left "));
    let cmds = parse_commands_from_script(&cmd).unwrap();
    let res = edit_text(input, &cmds).unwrap();
    assert_eq!(res.lines, vec!["left right".to_string()]);
}

#[test]
fn move_range_marks_moved_lines_modified() {
    let input = "a\nb\nc\nd\n";
    let cmd = format!("{},{}m{}", addr(2, "b"), addr(3, "c"), addr(4, "d"));
    let cmds = parse_commands_from_script(&cmd).unwrap();
    let res = edit_text(input, &cmds).unwrap();
    assert_eq!(res.lines, vec!["a", "d", "b", "c"]);
    assert_eq!(res.modified, vec![3, 4]);
    assert!(res.deleted.is_empty());
}

#[test]
fn global_delete_todo() {
    let input = "keep\nTODO one\nTODO two\nkeep2\n";
    let cmd = format!("{},{}g/TODO/d", addr(1, "keep"), addr(4, "keep2"));
    let cmds = parse_commands_from_script(&cmd).unwrap();
    let res = edit_text(input, &cmds).unwrap();
    assert_eq!(res.lines, vec!["keep".to_string(), "keep2".to_string()]);
    assert_eq!(res.deleted, vec![2, 3]);
}

#[test]
fn indent_and_dedent() {
    let input = "a\n    b\n";
    let cmd1 = format!("{}>2", addr(1, "a"));
    let cmd2 = format!("{}<1", addr(2, "    b"));
    let script = format!("{}\n{}\n", cmd1, cmd2);
    let cmds = parse_commands_from_script(&script).unwrap();
    let res = edit_text(input, &cmds).unwrap();
    assert_eq!(res.lines, vec!["        a".to_string(), "b".to_string()]);
    assert_eq!(res.modified, vec![1, 2]);
}

#[test]
fn dedent_strips_tab_as_one_level() {
    let input = "\tx\n";
    let cmd = format!("{}<1", addr(1, "\tx"));
    let cmds = parse_commands_from_script(&cmd).unwrap();
    let res = edit_text(input, &cmds).unwrap();
    assert_eq!(res.lines, vec!["x".to_string()]);
    assert_eq!(res.modified, vec![1]);
}

#[test]
fn sort_range() {
    let input = "c\na\nb\n";
    let cmd = format!("{},{}sort", addr(1, "c"), addr(3, "b"));
    let cmds = parse_commands_from_script(&cmd).unwrap();
    let res = edit_text(input, &cmds).unwrap();
    assert_eq!(res.lines, vec!["a", "b", "c"]);
    assert_eq!(res.modified, vec![1, 2, 3]);
}

#[test]
fn sort_touches_only_the_subrange() {
    let input = "z\nc\na\nb\nz2\n";
    let cmd = format!("{},{}sort", addr(2, "c"), addr(4, "b"));
    let cmds = parse_commands_from_script(&cmd).unwrap();
    let res = edit_text(input, &cmds).unwrap();
    assert_eq!(res.lines, vec!["z", "a", "b", "c", "z2"]);
    assert_eq!(res.modified, vec![2, 3, 4]);
}

#[test]
fn sort_of_sorted_range_marks_nothing() {
    let input = "a\nb\nc\n";
    let cmd = format!("{},{}sort", addr(1, "a"), addr(3, "c"));
    let cmds = parse_commands_from_script(&cmd).unwrap();
    let res = edit_text(input, &cmds).unwrap();
    assert_eq!(res.lines, vec!["a", "b", "c"]);
    assert!(res.modified.is_empty());
}

#[test]
fn print_marks_for_output() {
    let input = "a\nb\n";
    let cmd = format!("{}p", addr(2, "b"));
    let cmds = parse_commands_from_script(&cmd).unwrap();
    let res = edit_text(input, &cmds).unwrap();
    assert_eq!(res.modified, vec![2]);
}

#[test]
fn global_inverted_delete() {
    let input = "keep\ndrop\nkeep2\n";
    let cmd = format!("{},{}g!/keep/d", addr(1, "keep"), addr(3, "keep2"));
    let cmds = parse_commands_from_script(&cmd).unwrap();
    let res = edit_text(input, &cmds).unwrap();
    assert_eq!(res.lines, vec!["keep".to_string(), "keep2".to_string()]);
    assert_eq!(res.deleted, vec![2]);
}

#[test]
fn parser_rejects_zero_address_for_delete() {
    let script = "0|0000|d";
    let err = parse_commands_from_script(script).unwrap_err();
    assert!(err.message().contains("only allowed"));
}

#[test]
fn move_destination_in_range_errors() {
    let input = "a\nb\nc\n";
    let cmd = format!("{},{}m{}", addr(1, "a"), addr(2, "b"), addr(2, "b"));
    let cmds = parse_commands_from_script(&cmd).unwrap();
    let err = edit_text(input, &cmds).unwrap_err();
    assert!(err.message().contains("destination is within"));
}

#[test]
fn copy_inserts_new_lines() {
    let input = "a\nb\nc\n";
    let cmd = format!("{},{}t{}", addr(1, "a"), addr(2, "b"), addr(3, "c"));
    let cmds = parse_commands_from_script(&cmd).unwrap();
    let res = edit_text(input, &cmds).unwrap();
    assert_eq!(res.lines, vec!["a", "b", "c", "a", "b"]);
    assert_eq!(res.modified, vec![4, 5]);
}

#[test]
fn change_replaces_range() {
    let input = "a\nb\nc\n";
    let script = format!("{},{}c\nX\nY\n.\n", addr(1, "a"), addr(2, "b"));
    let cmds = parse_commands_from_script(&script).unwrap();
    let res = edit_text(input, &cmds).unwrap();
    assert_eq!(res.lines, vec!["X".to_string(), "Y".to_string(), "c".to_string()]);
    assert_eq!(res.deleted, vec![1, 2]);
    assert_eq!(res.modified, vec![1, 2]);
}

#[test]
fn join_range_collapses_all() {
    let input = "a\nb\nc\n";
    let cmd = format!("{},{}j", addr(1, "a"), addr(3, "c"));
    let cmds = parse_commands_from_script(&cmd).unwrap();
    let res = edit_text(input, &cmds).unwrap();
    assert_eq!(res.lines, vec!["a b c".to_string()]);
    assert_eq!(res.deleted, vec![2, 3]);
    assert_eq!(res.modified, vec![1]);
}

#[test]
fn multi_command_line_numbers_shift() {
    let input = "a\nb\nc\n";
    let script = format!("{}i\nX\n.\n{}d\n", addr(2, "b"), addr(3, "c"));
    let cmds = parse_commands_from_script(&script).unwrap();
    let res = edit_text(input, &cmds).unwrap();
    assert_eq!(res.lines, vec!["a".to_string(), "X".to_string(), "c".to_string()]);
    assert_eq!(res.deleted, vec![2]);
}

#[test]
fn invalid_regex_is_an_error() {
    let input = "abc\n";
    let cmd = format!("{}s/[/x/", addr(1, "abc"));
    let cmds = parse_commands_from_script(&cmd).unwrap();
    let err = edit_text(input, &cmds).unwrap_err();
    assert!(err.message().contains("invalid regex"));
}

#[test]
fn backwards_range_is_an_error() {
    let input = "a\nb\nc\n";
    let cmd = format!("{},{}d", addr(3, "c"), addr(1, "a"));
    let cmds = parse_commands_from_script(&cmd).unwrap();
    let err = edit_text(input, &cmds).unwrap_err();
    assert!(err.message().contains("invalid range"));
}

#[test]
fn address_out_of_range_is_an_error() {
    let input = "a\n";
    let stale = format!("5|{:04x}|d", line_hash_u16("zzz"));
    let cmds = parse_commands_from_script(&stale).unwrap();
    let err = edit_text(input, &cmds).unwrap_err();
    assert!(err.message().contains("out of range"));
}

#[test]
fn join_without_next_line_is_an_error() {
    let input = "only\n";
    let cmd = format!("{}j", addr(1, "only"));
    let cmds = parse_commands_from_script(&cmd).unwrap();
    let err = edit_text(input, &cmds).unwrap_err();
    assert!(err.message().contains("join"));
}

#[test]
fn empty_append_block_is_a_no_op() {
    let input = "a\n";
    let script = format!("{}a\n.\n", addr(1, "a"));
    let cmds = parse_commands_from_script(&script).unwrap();
    let res = edit_text(input, &cmds).unwrap();
    assert_eq!(res.lines, vec!["a".to_string()]);
    assert!(res.modified.is_empty());
}

#[test]
fn append_after_line_inserts_below() {
    let input = "a\nb\n";
    let script = format!("{}a\nX\n.\n", addr(1, "a"));
    let cmds = parse_commands_from_script(&script).unwrap();
    let res = edit_text(input, &cmds).unwrap();
    assert_eq!(res.lines, vec!["a".to_string(), "X".to_string(), "b".to_string()]);
    assert_eq!(res.modified, vec![2]);
}

#[test]
fn double_dot_escapes_a_literal_dot_line() {
    let input = "a\n";
    let script = format!("{}a\n..\n.\n", addr(1, "a"));
    let cmds = parse_commands_from_script(&script).unwrap();
    let res = edit_text(input, &cmds).unwrap();
    assert_eq!(res.lines, vec!["a".to_string(), ".".to_string()]);
}

#[test]
fn move_backwards_lands_after_destination() {
    let input = "a\nb\nc\nd\n";
    let cmd = format!("{},{}m{}", addr(3, "c"), addr(4, "d"), addr(1, "a"));
    let cmds = parse_commands_from_script(&cmd).unwrap();
    let res = edit_text(input, &cmds).unwrap();
    assert_eq!(res.lines, vec!["a", "c", "d", "b"]);
    assert_eq!(res.modified, vec![2, 3]);
    assert!(res.deleted.is_empty());
}

#[test]
fn dedent_takes_short_space_runs_as_one_level() {
    let input = "  x\n";
    let cmd = format!("{}<1", addr(1, "  x"));
    let cmds = parse_commands_from_script(&cmd).unwrap();
    let res = edit_text(input, &cmds).unwrap();
    assert_eq!(res.lines, vec!["x".to_string()]);
}

#[test]
fn substitute_without_g_replaces_only_first_match() {
    let input = "x x x\n";
    let cmd = format!("{}s/x/y/", addr(1, "x x x"));
    let cmds = parse_commands_from_script(&cmd).unwrap();
    let res = edit_text(input, &cmds).unwrap();
    assert_eq!(res.lines, vec!["y x x".to_string()]);
    assert_eq!(res.modified, vec![1]);
}

#[test]
fn global_substitute_only_matching_lines() {
    let input = "foo one\nbar\nfoo two\n";
    let cmd = format!(
        "{},{}g/foo/s/foo/FOO/",
        addr(1, "foo one"),
        addr(3, "foo two")
    );
    let cmds = parse_commands_from_script(&cmd).unwrap();
    let res = edit_text(input, &cmds).unwrap();
    assert_eq!(
        res.lines,
        vec!["FOO one".to_string(), "bar".to_string(), "FOO two".to_string()]
    );
    assert_eq!(res.modified, vec![1, 3]);
}
