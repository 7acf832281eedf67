//! The command parser: one command line is an address (optionally a range
//! of two addresses) followed by an operation; the text-insertion
//! operations additionally consume a block of raw lines from a line
//! source.

use vstd::prelude::*;

use crate::EditError;
use crate::chars::{
    char_to_string, lemma_contains_push, lemma_trim_start_len, split_script, starts_with_char,
    str_eq, trim, trim_start, trim_start_spec, trim_spec, views_of, find_char,
};
use crate::lnhash::{
    LnHash, parse_lnhash, parse_lnhash_prefix, parse_dec, valid_dec, dec_value,
};

verus! {

/// A fully parsed command, including any multiline text blocks.
#[derive(Debug)]
pub struct Command {
    pub addr1: LnHash,
    pub addr2: Option<LnHash>,
    pub has_comma: bool,
    pub cmd: Subcommand,
}

/// A command operation.
#[derive(Debug)]
pub enum Subcommand {
    Delete,
    Substitute(Subst),
    Append(Vec<String>),
    Insert(Vec<String>),
    Change(Vec<String>),
    Join,
    Move { dest: LnHash },
    Copy { dest: LnHash },
    /// Global (`g`) and inverted-global (`v`/`g!`).
    Global { invert: bool, pattern: String, cmd: Box<Subcommand> },
    Indent { levels: usize },
    Dedent { levels: usize },
    Sort,
    Print,
}

/// The payload of a substitute operation.
#[derive(Debug, Clone)]
pub struct Subst {
    pub pattern: String,
    pub replacement: String,
    pub global: bool,
    pub case_insensitive: bool,
}

/// The operations that consume a text block.
pub open spec fn is_text_insert(sc: Subcommand) -> bool {
    sc is Append || sc is Insert
}

/// Structural well-formedness the parser guarantees of an operation: no
/// Move/Copy destination uses the `0` sentinel, recursively through
/// Global.
pub open spec fn subcmd_wf(sc: Subcommand) -> bool
    decreases sc,
{
    match sc {
        Subcommand::Move { dest } => dest.lineno != 0,
        Subcommand::Copy { dest } => dest.lineno != 0,
        Subcommand::Global { cmd, .. } => subcmd_wf(*cmd),
        _ => true,
    }
}

/// Well-formedness the parser guarantees of a whole command: the `0`
/// sentinel only as the sole address of Insert/Append and only with hash
/// `0`, and never inside a range.
pub open spec fn cmd_wf(c: Command) -> bool {
    &&& subcmd_wf(c.cmd)
    &&& (c.addr1.lineno == 0 ==> c.addr1.hash == 0 && !c.has_comma && c.addr2 is None
        && is_text_insert(c.cmd))
    &&& (c.addr2 is Some ==> c.addr2.unwrap().lineno != 0)
}

/// Scan a `\`-escapable delimited string: the content up to the first
/// unescaped `d`, and what follows the closing `d`. `None` when the
/// string ends before an unescaped `d` is seen.
pub open spec fn delim_scan(s: Seq<char>, d: char) -> Option<(Seq<char>, Seq<char>)>
    decreases s.len(),
{
    if s.len() == 0 {
        None
    } else if s[0] == '\\' {
        if s.len() == 1 {
            None
        } else {
            match delim_scan(s.skip(2), d) {
                None => None,
                Some(p) => Some((seq![s[1]] + p.0, p.1)),
            }
        }
    } else if s[0] == d {
        Some((Seq::empty(), s.skip(1)))
    } else {
        match delim_scan(s.skip(1), d) {
            None => None,
            Some(p) => Some((seq![s[0]] + p.0, p.1)),
        }
    }
}

/// A `/.../` delimited string: a leading `d` followed by `delim_scan`.
pub open spec fn delim_parse(s: Seq<char>, d: char) -> Option<(Seq<char>, Seq<char>)> {
    if s.len() == 0 || s[0] != d {
        None
    } else {
        delim_scan(s.skip(1), d)
    }
}

fn delim_scan_exec<'a>(s: &'a str, d: char) -> (r: Result<(String, &'a str), ()>)
    ensures
        match r {
            Ok(p) => delim_scan(s@, d) == Some((p.0@, p.1@)) && p.1@.len() < s@.len(),
            Err(_) => delim_scan(s@, d) is None,
        },
    decreases s@.len(),
{
    let n = s.unicode_len();
    if n == 0 {
        return Err(());
    }
    let c0 = s.get_char(0);
    if c0 == '\\' {
        if n == 1 {
            return Err(());
        }
        let c1 = s.get_char(1);
        let tail = s.substring_char(2, n);
        proof {
            assert(tail@ == s@.skip(2));
        }
        match delim_scan_exec(tail, d) {
            Ok((content, rem)) => {
                let out = char_to_string(c1).concat(content.as_str());
                proof {
                    assert(out@ =~= seq![s@[1]] + content@);
                }
                Ok((out, rem))
            },
            Err(_) => Err(()),
        }
    } else if c0 == d {
        let rem = s.substring_char(1, n);
        let out = String::new();
        proof {
            assert(rem@ == s@.skip(1));
            assert(out@ =~= Seq::<char>::empty());
        }
        Ok((out, rem))
    } else {
        let tail = s.substring_char(1, n);
        proof {
            assert(tail@ == s@.skip(1));
        }
        match delim_scan_exec(tail, d) {
            Ok((content, rem)) => {
                let out = char_to_string(c0).concat(content.as_str());
                proof {
                    assert(out@ =~= seq![s@[0]] + content@);
                }
                Ok((out, rem))
            },
            Err(_) => Err(()),
        }
    }
}

/// Parse a `/.../` delimited string from the start of `input`, returning
/// the decoded content and the rest after the closing delimiter.
fn parse_delimited<'a>(input: &'a str, delim: char) -> (r: Result<(String, &'a str), EditError>)
    ensures
        match r {
            Ok(p) => delim_parse(input@, delim) == Some((p.0@, p.1@)) && p.1@.len()
                < input@.len(),
            Err(_) => delim_parse(input@, delim) is None,
        },
{
    let n = input.unicode_len();
    if !starts_with_char(input, delim) {
        return Err(EditError::from_text("missing delimiter"));
    }
    let tail = input.substring_char(1, n);
    proof {
        assert(tail@ == input@.skip(1));
    }
    match delim_scan_exec(tail, delim) {
        Ok(p) => Ok(p),
        Err(_) => Err(EditError::from_text("unterminated delimited string")),
    }
}

pub open spec fn flag_ok(fl: Seq<char>) -> bool {
    forall|k: int| 0 <= k < fl.len() ==> fl[k] == 'g' || fl[k] == 'i'
}

/// The substitute grammar `s/pat/rep/[flags]` applied after the leading
/// `s`: pattern, replacement, `g` flag, `i` flag. Both delimited segments
/// must be closed: a replacement without its final `/` is a parse error.
pub open spec fn parse_substitute_spec(s: Seq<char>) -> Option<(Seq<char>, Seq<char>, bool, bool)> {
    let t = trim_start_spec(s);
    match delim_parse(t, '/') {
        None => None,
        Some((pat, after)) => match delim_scan(after, '/') {
            None => None,
            Some((rep, after2)) => {
                let fl = trim_spec(after2);
                if !flag_ok(fl) {
                    None
                } else if pat.len() == 0 {
                    None
                } else {
                    Some((pat, rep, fl.contains('g'), fl.contains('i')))
                }
            },
        },
    }
}

/// Parse the substitute operation following the `s`.
#[verifier::loop_isolation(false)]
fn parse_substitute(rest: &str) -> (r: Result<Subst, EditError>)
    ensures
        match r {
            Ok(sub) => parse_substitute_spec(rest@) == Some(
                (sub.pattern@, sub.replacement@, sub.global, sub.case_insensitive),
            ),
            Err(_) => parse_substitute_spec(rest@) is None,
        },
{
    let t = trim_start(rest);
    if !starts_with_char(t, '/') {
        return Err(EditError::from_text("substitute requires /pat/rep/[flags]"));
    }
    let (pat, after_pat) = match parse_delimited(t, '/') {
        Ok(p) => p,
        Err(_) => {
            return Err(EditError::from_text("unterminated delimited string"));
        },
    };
    let (rep, after_rep) = match delim_scan_exec(after_pat, '/') {
        Ok(p) => p,
        Err(_) => {
            return Err(EditError::from_text("unterminated delimited string"));
        },
    };
    let fl = trim(after_rep);
    let nf = fl.unicode_len();
    let mut has_g = false;
    let mut has_i = false;
    let mut i: usize = 0;
    while i < nf
        invariant
            i <= nf,
            nf == fl@.len(),
            has_g == fl@.take(i as int).contains('g'),
            has_i == fl@.take(i as int).contains('i'),
            forall|k: int| 0 <= k < i ==> fl@[k] == 'g' || fl@[k] == 'i',
        decreases nf - i,
    {
        let c = fl.get_char(i);
        proof {
            assert(fl@.take(i as int + 1) =~= fl@.take(i as int).push(fl@[i as int]));
            lemma_contains_push(fl@.take(i as int), fl@[i as int], 'g');
            lemma_contains_push(fl@.take(i as int), fl@[i as int], 'i');
        }
        if c == 'g' {
            has_g = true;
        } else if c == 'i' {
            has_i = true;
        } else {
            proof {
                assert(0 <= i < fl@.len() && fl@[i as int] != 'g' && fl@[i as int] != 'i');
                assert(!flag_ok(fl@));
            }
            return Err(
                EditError::new(
                    String::from_str("unknown substitute flag: ").concat(
                        char_to_string(c).as_str(),
                    ),
                ),
            );
        }
        i = i + 1;
    }
    proof {
        assert(fl@.take(nf as int) =~= fl@);
    }
    if pat.unicode_len() == 0 {
        return Err(EditError::from_text("substitute pattern may not be empty"));
    }
    Ok(Subst { pattern: pat, replacement: rep, global: has_g, case_insensitive: has_i })
}

/// The optional level count of `>`/`<`: empty means one level.
pub open spec fn opt_usize_spec(s: Seq<char>) -> Option<usize> {
    let t = trim_spec(s);
    if t.len() == 0 {
        Some(1usize)
    } else if valid_dec(t) {
        Some(dec_value(t) as usize)
    } else {
        None
    }
}

fn parse_optional_usize(s: &str) -> (r: Result<usize, EditError>)
    ensures
        match r {
            Ok(v) => opt_usize_spec(s@) == Some(v),
            Err(_) => opt_usize_spec(s@) is None,
        },
{
    let t = trim(s);
    let n = t.unicode_len();
    if n == 0 {
        return Ok(1);
    }
    match parse_dec(t, 0, n) {
        Ok(v) => {
            proof {
                assert(t@.subrange(0, n as int) =~= t@);
            }
            Ok(v)
        },
        Err(_) => {
            proof {
                assert(t@.subrange(0, n as int) =~= t@);
            }
            Err(EditError::from_text("invalid number"))
        },
    }
}

/// The text-block protocol over a sequence of input lines starting at
/// `i`: lines up to the first `.` line (the terminator, discarded), with
/// `..` standing for a literal `.` line; `None` when input ends first.
/// The second component is the position just past the terminator.
pub open spec fn block_spec(lines: Seq<Seq<char>>, i: int) -> Option<(Seq<Seq<char>>, int)>
    decreases lines.len() - i,
{
    if i < 0 || i >= lines.len() {
        None
    } else if lines[i] == seq!['.'] {
        Some((Seq::empty(), i + 1))
    } else {
        let l: Seq<char> = if lines[i] == seq!['.', '.'] {
            seq!['.']
        } else {
            lines[i]
        };
        match block_spec(lines, i + 1) {
            None => None,
            Some(p) => Some((seq![l] + p.0, p.1)),
        }
    }
}

/// Read a text block from `lines` at `cursor` with the `.` terminator
/// protocol.
fn read_text_block(lines: &[String], cursor: &mut usize) -> (r: Result<Vec<String>, EditError>)
    requires
        *old(cursor) <= lines@.len(),
    ensures
        *old(cursor) <= *final(cursor) <= lines@.len(),
        match r {
            Ok(v) => block_spec(views_of(lines@), *old(cursor) as int) == Some(
                (views_of(v@), *final(cursor) as int),
            ),
            Err(_) => block_spec(views_of(lines@), *old(cursor) as int) is None,
        },
    decreases lines@.len() - *old(cursor),
{
    if *cursor == lines.len() {
        return Err(EditError::from_text("unexpected EOF while reading text block"));
    }
    let line: &String = &lines[*cursor];
    *cursor = *cursor + 1;
    proof {
        reveal_strlit(".");
        reveal_strlit("..");
        assert(views_of(lines@)[*cursor - 1] == line@);
    }
    if str_eq(line.as_str(), ".") {
        let v: Vec<String> = Vec::new();
        proof {
            assert("."@ =~= seq!['.']);
            assert(views_of(v@) =~= Seq::<Seq<char>>::empty());
        }
        return Ok(v);
    }
    let item: String = if str_eq(line.as_str(), "..") {
        String::from_str(".")
    } else {
        line.clone()
    };
    proof {
        assert("."@ =~= seq!['.']);
        assert(".."@ =~= seq!['.', '.']);
    }
    match read_text_block(lines, cursor) {
        Ok(mut tail) => {
            let mut v: Vec<String> = Vec::new();
            v.push(item);
            let ghost pre = v@;
            let ghost tailv = tail@;
            v.append(&mut tail);
            proof {
                assert(views_of(v@) =~= views_of(pre) + views_of(tailv)) by {
                    assert(v@ == pre + tailv);
                    assert forall|k: int| 0 <= k < v@.len() implies views_of(v@)[k] == (views_of(
                        pre,
                    ) + views_of(tailv))[k] by {
                        if k < pre.len() {
                            assert(v@[k] == pre[k]);
                        } else {
                            assert(v@[k] == tailv[k - pre.len()]);
                        }
                    }
                }
                assert(views_of(pre) =~= seq![item@]);
            }
            Ok(v)
        },
        Err(e) => Err(e),
    }
}

/// Read the rest of `lines` verbatim: the self-contained command-string
/// shape, where everything after the first line is the text block and no
/// terminator is required.
fn read_whole_block(lines: &[String], cursor: &mut usize) -> (v: Vec<String>)
    requires
        *old(cursor) <= lines@.len(),
    ensures
        views_of(v@) == views_of(lines@).skip(*old(cursor) as int),
        *final(cursor) == lines@.len(),
{
    let mut v: Vec<String> = Vec::new();
    proof {
        assert(views_of(v@) =~= views_of(lines@).subrange(
            *old(cursor) as int,
            *old(cursor) as int,
        ));
    }
    while *cursor < lines.len()
        invariant
            *old(cursor) <= *cursor <= lines@.len(),
            views_of(v@) == views_of(lines@).subrange(*old(cursor) as int, *cursor as int),
        decreases lines@.len() - *cursor,
    {
        let line = lines[*cursor].clone();
        proof {
            assert(views_of(v@.push(line)) =~= views_of(v@).push(line@));
            assert(views_of(lines@).subrange(*old(cursor) as int, *cursor + 1) =~= views_of(
                lines@,
            ).subrange(*old(cursor) as int, *cursor as int).push(views_of(lines@)[*cursor as int]));
        }
        v.push(line);
        *cursor = *cursor + 1;
    }
    proof {
        assert(views_of(lines@).subrange(*old(cursor) as int, lines@.len() as int) =~= views_of(
            lines@,
        ).skip(*old(cursor) as int));
    }
    v
}

/// What a text-block read yields: the protocol read, or, in the
/// self-contained shape, the remaining lines verbatim.
pub open spec fn block_read_spec(lines: Seq<Seq<char>>, i: int, whole: bool) -> Option<
    (Seq<Seq<char>>, int),
> {
    if whole {
        Some((lines.skip(i), lines.len() as int))
    } else {
        block_spec(lines, i)
    }
}

fn read_block(lines: &[String], cursor: &mut usize, whole: bool) -> (r: Result<
    Vec<String>,
    EditError,
>)
    requires
        *old(cursor) <= lines@.len(),
    ensures
        *old(cursor) <= *final(cursor) <= lines@.len(),
        match r {
            Ok(v) => block_read_spec(views_of(lines@), *old(cursor) as int, whole) == Some(
                (views_of(v@), *final(cursor) as int),
            ),
            Err(_) => block_read_spec(views_of(lines@), *old(cursor) as int, whole) is None,
        },
{
    if whole {
        Ok(read_whole_block(lines, cursor))
    } else {
        read_text_block(lines, cursor)
    }
}

/// The `sort` keyword form.
pub open spec fn is_sort_form(s: Seq<char>) -> bool {
    s.len() >= 4 && s[0] == 's' && s[1] == 'o' && s[2] == 'r' && s[3] == 't'
}

/// The `g!` spelling of the inverted global.
pub open spec fn is_gbang_form(s: Seq<char>) -> bool {
    !is_sort_form(s) && s.len() >= 2 && s[0] == 'g' && s[1] == '!'
}

/// The text an operation leaves unconsumed on its command line: the
/// single-letter operations leave everything after their letter, the
/// rest consume the whole line.
pub open spec fn subcmd_trailing(sc: Subcommand, input: Seq<char>) -> Seq<char> {
    let s = trim_start_spec(input);
    if is_sort_form(s) {
        s.skip(4)
    } else if is_gbang_form(s) {
        Seq::empty()
    } else if s.len() == 0 {
        Seq::empty()
    } else {
        match sc {
            Subcommand::Delete => s.skip(1),
            Subcommand::Print => s.skip(1),
            Subcommand::Join => s.skip(1),
            Subcommand::Append(_) => s.skip(1),
            Subcommand::Insert(_) => s.skip(1),
            Subcommand::Change(_) => s.skip(1),
            _ => Seq::empty(),
        }
    }
}

/// How an operation corresponds to its source text: `sc` is what the
/// grammar yields for `input`, moving the line-source cursor from `cur0`
/// to `cur1`. The unconsumed trailing text is `subcmd_trailing(sc, input)`.
pub open spec fn subcmd_rep(
    sc: Subcommand,
    input: Seq<char>,
    lines: Seq<Seq<char>>,
    cur0: int,
    cur1: int,
    whole: bool,
) -> bool
    decreases sc, 1int,
{
    let s = trim_start_spec(input);
    if is_sort_form(s) {
        &&& sc is Sort
        &&& cur1 == cur0
    } else if is_gbang_form(s) {
        global_rep(sc, s.skip(2), lines, cur0, cur1, whole, true)
    } else if s.len() == 0 {
        false
    } else {
        let c = s[0];
        let rest = s.skip(1);
        match sc {
            Subcommand::Delete => c == 'd' && cur1 == cur0,
            Subcommand::Print => c == 'p' && cur1 == cur0,
            Subcommand::Join => c == 'j' && cur1 == cur0,
            Subcommand::Substitute(sub) => c == 's' && parse_substitute_spec(rest) == Some(
                (sub.pattern@, sub.replacement@, sub.global, sub.case_insensitive),
            ) && cur1 == cur0,
            Subcommand::Append(text) => c == 'a' && block_read_spec(lines, cur0, whole) == Some(
                (views_of(text@), cur1),
            ),
            Subcommand::Insert(text) => c == 'i' && block_read_spec(lines, cur0, whole) == Some(
                (views_of(text@), cur1),
            ),
            Subcommand::Change(text) => c == 'c' && block_read_spec(lines, cur0, whole) == Some(
                (views_of(text@), cur1),
            ),
            Subcommand::Move { dest } => c == 'm' && crate::lnhash::parse_lnhash_spec(
                trim_spec(rest),
            ) == Some(dest) && dest.lineno != 0 && cur1 == cur0,
            Subcommand::Copy { dest } => c == 't' && crate::lnhash::parse_lnhash_spec(
                trim_spec(rest),
            ) == Some(dest) && dest.lineno != 0 && cur1 == cur0,
            Subcommand::Global { .. } => (c == 'g' && global_rep(
                sc,
                rest,
                lines,
                cur0,
                cur1,
                whole,
                false,
            )) || (c == 'v' && global_rep(sc, rest, lines, cur0, cur1, whole, true)),
            Subcommand::Indent { levels } => c == '>' && opt_usize_spec(rest) == Some(levels)
                && cur1 == cur0,
            Subcommand::Dedent { levels } => c == '<' && opt_usize_spec(rest) == Some(levels)
                && cur1 == cur0,
            Subcommand::Sort => false,
        }
    }
}

/// How a global operation corresponds to the text after its `g`, `g!`
/// or `v`: a delimited pattern, then an inner operation parsed by the
/// same grammar, whose own trailing text must be blank.
pub open spec fn global_rep(
    sc: Subcommand,
    rest: Seq<char>,
    lines: Seq<Seq<char>>,
    cur0: int,
    cur1: int,
    whole: bool,
    inv: bool,
) -> bool
    decreases sc, 0int,
{
    match sc {
        Subcommand::Global { invert, pattern, cmd } => {
            let t = trim_start_spec(rest);
            &&& invert == inv
            &&& (match delim_parse(t, '/') {
                None => false,
                Some(p) => {
                    &&& pattern@ == p.0
                    &&& subcmd_rep(*cmd, trim_start_spec(p.1), lines, cur0, cur1, whole)
                    &&& trim_spec(subcmd_trailing(*cmd, trim_start_spec(p.1))).len() == 0
                },
            })
        },
        _ => false,
    }
}

proof fn lemma_delim_scan_shrinks(s: Seq<char>, d: char)
    ensures
        delim_scan(s, d) matches Some(p) ==> p.1.len() < s.len(),
    decreases s.len(),
{
    if s.len() == 0 {
    } else if s[0] == '\\' {
        if s.len() > 1 {
            lemma_delim_scan_shrinks(s.skip(2), d);
        }
    } else if s[0] == d {
    } else {
        lemma_delim_scan_shrinks(s.skip(1), d);
    }
}

/// The text an operation leaves unconsumed, read off the line's shape
/// alone: the keyword and single-letter forms leave what follows them,
/// everything else consumes the line.
pub open spec fn shape_trailing(input: Seq<char>) -> Seq<char> {
    let s = trim_start_spec(input);
    if is_sort_form(s) {
        s.skip(4)
    } else if is_gbang_form(s) {
        Seq::empty()
    } else if s.len() == 0 {
        Seq::empty()
    } else if s[0] == 'd' || s[0] == 'p' || s[0] == 'j' || s[0] == 'a' || s[0] == 'i' || s[0]
        == 'c' {
        s.skip(1)
    } else {
        Seq::empty()
    }
}

/// Whether the operation grammar accepts `input`, with the line source
/// standing at `cur0`.
pub open spec fn subcmd_parses(
    input: Seq<char>,
    lines: Seq<Seq<char>>,
    cur0: int,
    whole: bool,
) -> bool
    decreases input.len(), 1int,
    via subcmd_parses_decreases
{
    let s = trim_start_spec(input);
    if is_sort_form(s) {
        true
    } else if is_gbang_form(s) {
        global_parses(s.skip(2), lines, cur0, whole)
    } else if s.len() == 0 {
        false
    } else {
        let c = s[0];
        let rest = s.skip(1);
        if c == 'd' || c == 'p' || c == 'j' {
            true
        } else if c == 's' {
            parse_substitute_spec(rest) is Some
        } else if c == 'a' || c == 'i' || c == 'c' {
            block_read_spec(lines, cur0, whole) is Some
        } else if c == 'm' || c == 't' {
            match crate::lnhash::parse_lnhash_spec(trim_spec(rest)) {
                Some(d) => d.lineno != 0,
                None => false,
            }
        } else if c == 'g' || c == 'v' {
            global_parses(rest, lines, cur0, whole)
        } else if c == '>' || c == '<' {
            opt_usize_spec(rest) is Some
        } else {
            false
        }
    }
}

#[via_fn]
proof fn subcmd_parses_decreases(input: Seq<char>, lines: Seq<Seq<char>>, cur0: int, whole: bool) {
    lemma_trim_start_len(input);
}

/// Whether a global operation's body parses: a delimited pattern, then
/// an inner operation with nothing but blanks after it.
pub open spec fn global_parses(
    rest: Seq<char>,
    lines: Seq<Seq<char>>,
    cur0: int,
    whole: bool,
) -> bool
    decreases rest.len(), 0int,
    via global_parses_decreases
{
    let t = trim_start_spec(rest);
    match delim_parse(t, '/') {
        None => false,
        Some(p) => {
            let cmd_str = trim_start_spec(p.1);
            &&& cmd_str.len() > 0
            &&& subcmd_parses(cmd_str, lines, cur0, whole)
            &&& trim_spec(shape_trailing(cmd_str)).len() == 0
        },
    }
}

#[via_fn]
proof fn global_parses_decreases(rest: Seq<char>, lines: Seq<Seq<char>>, cur0: int, whole: bool) {
    lemma_trim_start_len(rest);
    let t = trim_start_spec(rest);
    if t.len() > 0 && t[0] == '/' {
        lemma_delim_scan_shrinks(t.skip(1), '/');
        match delim_parse(t, '/') {
            Some(p) => {
                lemma_trim_start_len(p.1);
            },
            None => {},
        }
    }
}

/// An operation stands at `rest` with only blanks after it.
pub open spec fn op_blank_rep(
    sc: Subcommand,
    rest: Seq<char>,
    lines: Seq<Seq<char>>,
    cur0: int,
    cur1: int,
    whole: bool,
) -> bool {
    &&& subcmd_rep(sc, trim_spec(rest), lines, cur0, cur1, whole)
    &&& trim_spec(subcmd_trailing(sc, trim_spec(rest))).len() == 0
}

/// Whether the operation at `input` consumes a text block from the line
/// source, at any nesting depth through globals: the shape alone decides.
pub open spec fn shape_consumes_block(input: Seq<char>) -> bool
    decreases input.len(), 1int,
    via shape_consumes_block_decreases
{
    let s = trim_start_spec(input);
    if is_sort_form(s) {
        false
    } else if is_gbang_form(s) {
        global_shape_consumes(s.skip(2))
    } else if s.len() == 0 {
        false
    } else if s[0] == 'a' || s[0] == 'i' || s[0] == 'c' {
        true
    } else if s[0] == 'g' || s[0] == 'v' {
        global_shape_consumes(s.skip(1))
    } else {
        false
    }
}

#[via_fn]
proof fn shape_consumes_block_decreases(input: Seq<char>) {
    lemma_trim_start_len(input);
}

/// Whether a global's inner operation consumes a text block.
pub open spec fn global_shape_consumes(rest: Seq<char>) -> bool
    decreases rest.len(), 0int,
    via global_shape_consumes_decreases
{
    match delim_parse(trim_start_spec(rest), '/') {
        None => false,
        Some(p) => shape_consumes_block(trim_start_spec(p.1)),
    }
}

#[via_fn]
proof fn global_shape_consumes_decreases(rest: Seq<char>) {
    lemma_trim_start_len(rest);
    let t = trim_start_spec(rest);
    if t.len() > 0 && t[0] == '/' {
        lemma_delim_scan_shrinks(t.skip(1), '/');
        match delim_parse(t, '/') {
            Some(p) => {
                lemma_trim_start_len(p.1);
            },
            None => {},
        }
    }
}

/// Where the line-source cursor stands after the operation at `input`:
/// past the block it consumed, or unmoved.
pub open spec fn op_next_cursor(
    input: Seq<char>,
    lines: Seq<Seq<char>>,
    cur0: int,
    whole: bool,
) -> int {
    if shape_consumes_block(input) {
        match block_read_spec(lines, cur0, whole) {
            Some(q) => q.1,
            None => cur0,
        }
    } else {
        cur0
    }
}

/// The operation text of a command line: what follows its addresses
/// (empty when the addresses do not parse).
pub open spec fn cmd_op_rest(line: Seq<char>) -> Seq<char> {
    let t = trim_spec(line);
    match crate::lnhash::parse_prefix_spec(t) {
        None => Seq::empty(),
        Some(p1) => if p1.2.len() > 0 && p1.2[0] == ',' {
            match crate::lnhash::parse_prefix_spec(p1.2.skip(1)) {
                None => Seq::empty(),
                Some(p2) => p2.2,
            }
        } else {
            p1.2
        },
    }
}

/// Where the line-source cursor stands after a whole command line.
pub open spec fn cmd_next_cursor(
    line: Seq<char>,
    lines: Seq<Seq<char>>,
    cur0: int,
    whole: bool,
) -> int {
    op_next_cursor(trim_spec(cmd_op_rest(line)), lines, cur0, whole)
}

/// The grammar relation fixes the cursor movement: a parsed operation
/// ends with the cursor exactly where the line's shape says.
proof fn lemma_subcmd_rep_cursor(
    sc: Subcommand,
    input: Seq<char>,
    lines: Seq<Seq<char>>,
    cur0: int,
    cur1: int,
    whole: bool,
)
    requires
        subcmd_rep(sc, input, lines, cur0, cur1, whole),
    ensures
        cur1 == op_next_cursor(input, lines, cur0, whole),
    decreases sc, 1int,
{
    let s = trim_start_spec(input);
    if is_sort_form(s) {
    } else if is_gbang_form(s) {
        lemma_global_rep_cursor(sc, s.skip(2), lines, cur0, cur1, whole, true);
    } else if s.len() == 0 {
    } else {
        match sc {
            Subcommand::Global { .. } => {
                if s[0] == 'g' && global_rep(sc, s.skip(1), lines, cur0, cur1, whole, false) {
                    lemma_global_rep_cursor(sc, s.skip(1), lines, cur0, cur1, whole, false);
                } else {
                    lemma_global_rep_cursor(sc, s.skip(1), lines, cur0, cur1, whole, true);
                }
            },
            _ => {},
        }
    }
}

proof fn lemma_global_rep_cursor(
    sc: Subcommand,
    rest: Seq<char>,
    lines: Seq<Seq<char>>,
    cur0: int,
    cur1: int,
    whole: bool,
    inv: bool,
)
    requires
        global_rep(sc, rest, lines, cur0, cur1, whole, inv),
    ensures
        cur1 == (if global_shape_consumes(rest) {
            match block_read_spec(lines, cur0, whole) {
                Some(q) => q.1,
                None => cur0,
            }
        } else {
            cur0
        }),
    decreases sc, 0int,
{
    match sc {
        Subcommand::Global { invert, pattern, cmd } => {
            let t = trim_start_spec(rest);
            match delim_parse(t, '/') {
                None => {},
                Some(p) => {
                    lemma_subcmd_rep_cursor(*cmd, trim_start_spec(p.1), lines, cur0, cur1, whole);
                },
            }
        },
        _ => {},
    }
}

/// A parsed command line ends with the cursor exactly where the line's
/// shape says.
pub proof fn lemma_cmd_rep_cursor(
    c: Command,
    line: Seq<char>,
    lines: Seq<Seq<char>>,
    cur0: int,
    cur1: int,
    whole: bool,
)
    requires
        cmd_rep(c, line, lines, cur0, cur1, whole),
    ensures
        cur1 == cmd_next_cursor(line, lines, cur0, whole),
{
    lemma_subcmd_rep_cursor(c.cmd, trim_spec(cmd_op_rest(line)), lines, cur0, cur1, whole);
}

/// The shape of an operation that takes a text block by insertion: the
/// `a` and `i` letter forms.
pub open spec fn shape_text_insert(input: Seq<char>) -> bool {
    let s = trim_start_spec(input);
    !is_sort_form(s) && !is_gbang_form(s) && s.len() > 0 && (s[0] == 'a' || s[0] == 'i')
}

/// An operation stands at `rest`, parses, and leaves only blanks.
pub open spec fn op_ok(rest: Seq<char>, lines: Seq<Seq<char>>, cur0: int, whole: bool) -> bool {
    let rr = trim_spec(rest);
    &&& rr.len() > 0
    &&& subcmd_parses(rr, lines, cur0, whole)
    &&& trim_spec(shape_trailing(rr)).len() == 0
}

/// Whether the whole command grammar accepts `line`: one or two
/// addresses, an operation with only blanks trailing, and the sentinel
/// rules.
pub open spec fn cmd_parses(line: Seq<char>, lines: Seq<Seq<char>>, cur0: int, whole: bool) -> bool {
    let t = trim_spec(line);
    match crate::lnhash::parse_prefix_spec(t) {
        None => false,
        Some(p1) => {
            if p1.2.len() > 0 && p1.2[0] == ',' {
                match crate::lnhash::parse_prefix_spec(p1.2.skip(1)) {
                    None => false,
                    Some(p2) => {
                        &&& op_ok(p2.2, lines, cur0, whole)
                        &&& p1.0 != 0
                        &&& p2.0 != 0
                    },
                }
            } else {
                &&& op_ok(p1.2, lines, cur0, whole)
                &&& (p1.0 == 0 ==> p1.1 == 0 && shape_text_insert(trim_spec(p1.2)))
            }
        },
    }
}

/// How a whole command corresponds to its source line: one or two
/// addresses parsed off the front, then the operation, with only blanks
/// trailing.
pub open spec fn cmd_rep(
    c: Command,
    line: Seq<char>,
    lines: Seq<Seq<char>>,
    cur0: int,
    cur1: int,
    whole: bool,
) -> bool {
    let t = trim_spec(line);
    match crate::lnhash::parse_prefix_spec(t) {
        None => false,
        Some(p1) => {
            &&& c.addr1 == (LnHash { lineno: p1.0, hash: p1.1 })
            &&& (if p1.2.len() > 0 && p1.2[0] == ',' {
                &&& c.has_comma
                &&& (match crate::lnhash::parse_prefix_spec(p1.2.skip(1)) {
                    None => false,
                    Some(p2) => c.addr2 == Some(LnHash { lineno: p2.0, hash: p2.1 })
                        && op_blank_rep(c.cmd, p2.2, lines, cur0, cur1, whole),
                })
            } else {
                &&& !c.has_comma
                &&& c.addr2 is None
                &&& op_blank_rep(c.cmd, p1.2, lines, cur0, cur1, whole)
            })
        },
    }
}

/// Parse the operation part of a command line. On success, the returned
/// operation is well-formed and corresponds to the input under the
/// grammar (`subcmd_rep`); the cursor has advanced over any text block
/// that was read.
pub fn parse_subcommand_with_text<'a>(
    input: &'a str,
    lines: &[String],
    cursor: &mut usize,
    whole: bool,
) -> (r: Result<(Subcommand, &'a str), EditError>)
    requires
        *old(cursor) <= lines@.len(),
    ensures
        *old(cursor) <= *final(cursor) <= lines@.len(),
        r matches Ok(p) ==> subcmd_wf(p.0),
        r matches Ok(p) ==> subcmd_rep(
            p.0,
            input@,
            views_of(lines@),
            *old(cursor) as int,
            *final(cursor) as int,
            whole,
        ) && p.1@ == subcmd_trailing(p.0, input@),
        r is Ok <==> subcmd_parses(input@, views_of(lines@), *old(cursor) as int, whole),
    decreases input@.len(),
{
    let s = trim_start(input);
    proof {
        lemma_trim_start_len(input@);
        reveal_strlit("");
    }
    let n = s.unicode_len();
    if n >= 4 && s.get_char(0) == 's' && s.get_char(1) == 'o' && s.get_char(2) == 'r'
        && s.get_char(3) == 't' {
        let trailing = s.substring_char(4, n);
        return Ok((Subcommand::Sort, trailing));
    }
    if n >= 2 && s.get_char(0) == 'g' && s.get_char(1) == '!' {
        let rest = s.substring_char(2, n);
        return parse_global(rest, true, lines, cursor, whole);
    }
    if n == 0 {
        return Err(EditError::from_text("missing command"));
    }
    let c = s.get_char(0);
    let rest = s.substring_char(1, n);
    match c {
        'd' => Ok((Subcommand::Delete, rest)),
        'p' => Ok((Subcommand::Print, rest)),
        'j' => Ok((Subcommand::Join, rest)),
        's' => match parse_substitute(rest) {
            Ok(sub) => Ok((Subcommand::Substitute(sub), "")),
            Err(e) => Err(e),
        },
        'a' => match read_block(lines, cursor, whole) {
            Ok(text) => Ok((Subcommand::Append(text), rest)),
            Err(e) => Err(e),
        },
        'i' => match read_block(lines, cursor, whole) {
            Ok(text) => Ok((Subcommand::Insert(text), rest)),
            Err(e) => Err(e),
        },
        'c' => match read_block(lines, cursor, whole) {
            Ok(text) => Ok((Subcommand::Change(text), rest)),
            Err(e) => Err(e),
        },
        'm' => {
            let dest_str = trim(rest);
            match parse_lnhash(dest_str) {
                Ok(dest) => if dest.lineno == 0 {
                    Err(EditError::from_text("destination 0|0000| is not allowed for m"))
                } else {
                    Ok((Subcommand::Move { dest }, ""))
                },
                Err(e) => Err(e),
            }
        },
        't' => {
            let dest_str = trim(rest);
            match parse_lnhash(dest_str) {
                Ok(dest) => if dest.lineno == 0 {
                    Err(EditError::from_text("destination 0|0000| is not allowed for t"))
                } else {
                    Ok((Subcommand::Copy { dest }, ""))
                },
                Err(e) => Err(e),
            }
        },
        'g' => parse_global(rest, false, lines, cursor, whole),
        'v' => parse_global(rest, true, lines, cursor, whole),
        '>' => match parse_optional_usize(rest) {
            Ok(levels) => Ok((Subcommand::Indent { levels }, "")),
            Err(e) => Err(e),
        },
        '<' => match parse_optional_usize(rest) {
            Ok(levels) => Ok((Subcommand::Dedent { levels }, "")),
            Err(e) => Err(e),
        },
        _ => Err(
            EditError::new(
                String::from_str("unknown command: ").concat(char_to_string(c).as_str()),
            ),
        ),
    }
}

/// Parse the body of a global command, `rest` being what follows the
/// `g`, `g!` or `v`.
fn parse_global<'a>(
    rest: &'a str,
    invert: bool,
    lines: &[String],
    cursor: &mut usize,
    whole: bool,
) -> (r: Result<(Subcommand, &'a str), EditError>)
    requires
        *old(cursor) <= lines@.len(),
    ensures
        *old(cursor) <= *final(cursor) <= lines@.len(),
        r matches Ok(p) ==> subcmd_wf(p.0),
        r matches Ok(p) ==> global_rep(
            p.0,
            rest@,
            views_of(lines@),
            *old(cursor) as int,
            *final(cursor) as int,
            whole,
            invert,
        ) && p.1@.len() == 0,
        r is Ok <==> global_parses(rest@, views_of(lines@), *old(cursor) as int, whole),
    decreases rest@.len(),
{
    let t = trim_start(rest);
    proof {
        lemma_trim_start_len(rest@);
        reveal_strlit("");
    }
    if !starts_with_char(t, '/') {
        return Err(EditError::from_text("global requires /pat/cmd"));
    }
    let (pat, after_pat) = match parse_delimited(t, '/') {
        Ok(p) => p,
        Err(e) => {
            return Err(e);
        },
    };
    let cmd_str = trim_start(after_pat);
    proof {
        lemma_trim_start_len(after_pat@);
    }
    if cmd_str.unicode_len() == 0 {
        return Err(EditError::from_text("global requires a subcommand"));
    }
    let (subcmd, trailing) = match parse_subcommand_with_text(cmd_str, lines, cursor, whole) {
        Ok(p) => p,
        Err(e) => {
            return Err(e);
        },
    };
    let tt = trim(trailing);
    if tt.unicode_len() != 0 {
        return Err(EditError::from_text("unexpected trailing characters in global subcommand"));
    }
    let out = Subcommand::Global { invert, pattern: pat, cmd: Box::new(subcmd) };
    proof {
        let inner = out->Global_cmd;
        assert(*inner == subcmd);
        assert(out->Global_pattern == pat);
        assert(out->Global_invert == invert);
        assert(delim_parse(trim_start_spec(rest@), '/') == Some((pat@, after_pat@)));
        assert(subcmd_rep(
            *inner,
            trim_start_spec(after_pat@),
            views_of(lines@),
            *old(cursor) as int,
            *final(cursor) as int,
            whole,
        ));
        assert(trailing@ == subcmd_trailing(subcmd, trim_start_spec(after_pat@)));
        assert(trim_spec(subcmd_trailing(*inner, trim_start_spec(after_pat@))).len() == 0);
        assert(global_rep(
            out,
            rest@,
            views_of(lines@),
            *old(cursor) as int,
            *final(cursor) as int,
            whole,
            invert,
        ));
    }
    Ok((out, ""))
}

/// Parse one command line; text blocks are taken from `lines` at
/// `cursor`. On success the command is well-formed (`cmd_wf`) and
/// corresponds to the line under the grammar (`cmd_rep`).
pub fn parse_command_with_text<'a>(
    line: &'a str,
    lines: &[String],
    cursor: &mut usize,
    whole: bool,
) -> (r: Result<Command, EditError>)
    requires
        *old(cursor) <= lines@.len(),
    ensures
        *old(cursor) <= *final(cursor) <= lines@.len(),
        r matches Ok(c) ==> cmd_wf(c),
        r matches Ok(c) ==> cmd_rep(
            c,
            line@,
            views_of(lines@),
            *old(cursor) as int,
            *final(cursor) as int,
            whole,
        ),
        r is Ok <==> cmd_parses(line@, views_of(lines@), *old(cursor) as int, whole),
{
    let line = trim(line);
    let (addr1, rest0) = match parse_lnhash_prefix(line) {
        Ok(p) => p,
        Err(e) => {
            return Err(e);
        },
    };
    let mut has_comma = false;
    let mut addr2: Option<LnHash> = None;
    let mut rest: &str = rest0;
    if starts_with_char(rest0, ',') {
        has_comma = true;
        let n0 = rest0.unicode_len();
        let tail = rest0.substring_char(1, n0);
        let (a2, r2) = match parse_lnhash_prefix(tail) {
            Ok(p) => p,
            Err(e) => {
                return Err(e);
            },
        };
        addr2 = Some(a2);
        rest = r2;
    }
    let rest = trim(rest);
    if rest.unicode_len() == 0 {
        return Err(EditError::from_text("missing command"));
    }
    let (cmd, trailing) = match parse_subcommand_with_text(rest, lines, cursor, whole) {
        Ok(p) => p,
        Err(e) => {
            return Err(e);
        },
    };
    let tt = trim(trailing);
    if tt.unicode_len() != 0 {
        return Err(EditError::from_text("unexpected trailing characters"));
    }
    if addr1.lineno == 0 {
        if addr1.hash != 0 {
            return Err(EditError::from_text("0|0000| must have hash 0000"));
        }
        if has_comma {
            return Err(EditError::from_text("0|0000| is not allowed in ranges"));
        }
        match addr2 {
            Some(_) => {
                return Err(EditError::from_text("0|0000| is not allowed in ranges"));
            },
            None => {},
        }
        match &cmd {
            Subcommand::Append(_) | Subcommand::Insert(_) => {},
            _ => {
                return Err(EditError::from_text("0|0000| is only allowed with i or a"));
            },
        }
    }
    match addr2 {
        Some(a2) => {
            if a2.lineno == 0 {
                return Err(EditError::from_text("0|0000| is not allowed in ranges"));
            }
        },
        None => {},
    }
    Ok(Command { addr1, addr2, has_comma, cmd })
}

/// Every command in a parsed sequence is well-formed.
pub open spec fn cmds_wf(v: Seq<Command>) -> bool {
    forall|k: int| 0 <= k < v.len() ==> cmd_wf(#[trigger] v[k])
}

/// Whether a whole script parses: its pieces (newline-split, one
/// trailing CR stripped each) are taken in order from `i` on, blank
/// pieces skipped; each command line must parse, with its text block
/// taken from the pieces that follow it.
pub open spec fn script_parses(pieces: Seq<Seq<char>>, i: int) -> bool
    decreases pieces.len() - i,
{
    if i < 0 || i >= pieces.len() {
        true
    } else if trim_spec(pieces[i]).len() == 0 {
        script_parses(pieces, i + 1)
    } else {
        let nx = cmd_next_cursor(pieces[i], pieces, i + 1, false);
        &&& cmd_parses(pieces[i], pieces, i + 1, false)
        &&& (if i + 1 <= nx <= pieces.len() {
            script_parses(pieces, nx)
        } else {
            false
        })
    }
}

/// How a command sequence corresponds to a script: `cmds[k ..]` are
/// exactly the commands of the pieces from `i` on, in script order, each
/// related to its source line by `cmd_rep` with the cursor moved over
/// its text block.
pub open spec fn script_rep(cmds: Seq<Command>, pieces: Seq<Seq<char>>, i: int, k: int) -> bool
    decreases pieces.len() - i,
{
    if i < 0 || i >= pieces.len() {
        k == cmds.len()
    } else if trim_spec(pieces[i]).len() == 0 {
        script_rep(cmds, pieces, i + 1, k)
    } else {
        let nx = cmd_next_cursor(pieces[i], pieces, i + 1, false);
        &&& 0 <= k < cmds.len()
        &&& cmd_rep(cmds[k], pieces[i], pieces, i + 1, nx, false)
        &&& (if i + 1 <= nx <= pieces.len() {
            script_rep(cmds, pieces, nx, k + 1)
        } else {
            false
        })
    }
}

/// Parse commands from an ex-style script string. Commands are separated
/// by newlines; for `a`/`i`/`c` (also nested in a global) the following
/// lines up to a `.` line are the text block. Succeeds exactly when the
/// whole script parses, and then returns its commands in script order.
pub fn parse_commands_from_script(script: &str) -> (r: Result<Vec<Command>, EditError>)
    ensures
        r is Ok <==> script_parses(crate::chars::split_script_spec(script@), 0),
        r matches Ok(v) ==> script_rep(v@, crate::chars::split_script_spec(script@), 0, 0)
            && cmds_wf(v@),
{
    let pieces = split_script(script);
    let ghost pv = crate::chars::split_script_spec(script@);
    let mut out: Vec<Command> = Vec::new();
    let mut cursor: usize = 0;
    while cursor < pieces.len()
        invariant
            cursor <= pieces@.len(),
            pv == views_of(pieces@),
            pv == crate::chars::split_script_spec(script@),
            cmds_wf(out@),
            script_parses(pv, 0) == script_parses(pv, cursor as int),
            forall|full: Seq<Command>|
                full.len() >= out@.len() && full.take(out@.len() as int) == out@
                    && #[trigger] script_rep(full, pv, cursor as int, out@.len() as int)
                    ==> script_rep(full, pv, 0, 0),
        decreases pieces@.len() - cursor,
    {
        let ghost i = cursor as int;
        let ghost pre = out@;
        let line: &String = &pieces[cursor];
        cursor = cursor + 1;
        let t = trim(line.as_str());
        proof {
            assert(pv[i] == line@);
        }
        if t.unicode_len() == 0 {
            proof {
                assert(script_parses(pv, i) == script_parses(pv, i + 1));
                assert forall|full: Seq<Command>|
                    full.len() >= out@.len() && full.take(out@.len() as int) == out@
                        && #[trigger] script_rep(full, pv, i + 1, out@.len() as int) implies
                    script_rep(full, pv, 0, 0) by {
                    assert(script_rep(full, pv, i, out@.len() as int));
                }
            }
            continue;
        }
        match parse_command_with_text(line.as_str(), pieces.as_slice(), &mut cursor, false) {
            Ok(c) => {
                let ghost fin = cursor as int;
                proof {
                    lemma_cmd_rep_cursor(c, line@, pv, i + 1, fin, false);
                    assert(fin == cmd_next_cursor(pv[i], pv, i + 1, false));
                    assert(script_parses(pv, i) == script_parses(pv, fin));
                }
                out.push(c);
                proof {
                    assert forall|k: int| 0 <= k < out@.len() implies cmd_wf(
                        #[trigger] out@[k],
                    ) by {
                        if k < pre.len() {
                            assert(out@[k] == pre[k]);
                        }
                    }
                    assert forall|full: Seq<Command>|
                        full.len() >= out@.len() && full.take(out@.len() as int) == out@
                            && #[trigger] script_rep(full, pv, fin, out@.len() as int) implies
                        script_rep(full, pv, 0, 0) by {
                        let k = pre.len() as int;
                        assert(full[k] == out@[k] && out@[k] == c) by {
                            assert(full.take(k + 1)[k] == full[k]);
                        }
                        assert(full.take(k) =~= pre) by {
                            assert forall|w: int| 0 <= w < k implies full.take(k)[w]
                                == pre[w] by {
                                assert(full.take(k + 1)[w] == full[w]);
                            }
                        }
                        assert(script_rep(full, pv, i, k));
                    }
                }
            },
            Err(e) => {
                proof {
                    assert(!script_parses(pv, i));
                }
                return Err(e);
            },
        }
    }
    proof {
        assert(script_parses(pv, pieces@.len() as int));
        assert(script_rep(out@, pv, cursor as int, out@.len() as int));
        assert(out@.take(out@.len() as int) =~= out@);
    }
    Ok(out)
}

/// The operations that take a text block, one global level deep: the
/// shape the self-contained command form accepts extra lines for.
pub open spec fn is_text_block_cmd(sc: Subcommand) -> bool {
    match sc {
        Subcommand::Append(_) => true,
        Subcommand::Insert(_) => true,
        Subcommand::Change(_) => true,
        Subcommand::Global { cmd, .. } => *cmd is Append || *cmd is Insert || *cmd is Change,
        _ => false,
    }
}

/// An `a`/`i`/`c` letter form (after leading blanks).
pub open spec fn shape_text_op(s: Seq<char>) -> bool {
    !is_sort_form(s) && !is_gbang_form(s) && s.len() > 0 && (s[0] == 'a' || s[0] == 'i' || s[0]
        == 'c')
}

/// The direct inner operation of a global body is an `a`/`i`/`c` form.
pub open spec fn inner_text_op(rest: Seq<char>) -> bool {
    match delim_parse(trim_start_spec(rest), '/') {
        None => false,
        Some(p) => shape_text_op(trim_start_spec(p.1)),
    }
}

/// Whether the operation shape takes a text block, looking one global
/// level deep, as the self-contained command form does.
pub open spec fn shape_takes_block(input: Seq<char>) -> bool {
    let s = trim_start_spec(input);
    if is_sort_form(s) {
        false
    } else if is_gbang_form(s) {
        inner_text_op(s.skip(2))
    } else if s.len() == 0 {
        false
    } else if s[0] == 'a' || s[0] == 'i' || s[0] == 'c' {
        true
    } else if s[0] == 'g' || s[0] == 'v' {
        inner_text_op(s.skip(1))
    } else {
        false
    }
}

proof fn lemma_rep_text_letter(
    sc: Subcommand,
    input: Seq<char>,
    lines: Seq<Seq<char>>,
    cur0: int,
    cur1: int,
    whole: bool,
)
    requires
        subcmd_rep(sc, input, lines, cur0, cur1, whole),
    ensures
        (sc is Append || sc is Insert || sc is Change) == shape_text_op(trim_start_spec(input)),
{
}

/// A parsed operation takes a text block exactly when its line's shape
/// says so.
proof fn lemma_rep_takes_block(
    sc: Subcommand,
    input: Seq<char>,
    lines: Seq<Seq<char>>,
    cur0: int,
    cur1: int,
    whole: bool,
)
    requires
        subcmd_rep(sc, input, lines, cur0, cur1, whole),
    ensures
        is_text_block_cmd(sc) == shape_takes_block(input),
{
    let s = trim_start_spec(input);
    if is_sort_form(s) {
    } else if is_gbang_form(s) {
        match sc {
            Subcommand::Global { invert, pattern, cmd } => {
                match delim_parse(trim_start_spec(s.skip(2)), '/') {
                    None => {},
                    Some(p) => {
                        crate::chars::lemma_trim_start_idem(p.1);
                        lemma_rep_text_letter(
                            *cmd,
                            trim_start_spec(p.1),
                            lines,
                            cur0,
                            cur1,
                            whole,
                        );
                    },
                }
            },
            _ => {},
        }
    } else if s.len() == 0 {
    } else {
        match sc {
            Subcommand::Global { invert, pattern, cmd } => {
                if s[0] == 'g' && global_rep(sc, s.skip(1), lines, cur0, cur1, whole, false) {
                    match delim_parse(trim_start_spec(s.skip(1)), '/') {
                        None => {},
                        Some(p) => {
                            crate::chars::lemma_trim_start_idem(p.1);
                            lemma_rep_text_letter(
                                *cmd,
                                trim_start_spec(p.1),
                                lines,
                                cur0,
                                cur1,
                                whole,
                            );
                        },
                    }
                } else {
                    assert(s[0] == 'v' && global_rep(
                        sc,
                        s.skip(1),
                        lines,
                        cur0,
                        cur1,
                        whole,
                        true,
                    ));
                    match delim_parse(trim_start_spec(s.skip(1)), '/') {
                        None => {},
                        Some(p) => {
                            crate::chars::lemma_trim_start_idem(p.1);
                            lemma_rep_text_letter(
                                *cmd,
                                trim_start_spec(p.1),
                                lines,
                                cur0,
                                cur1,
                                whole,
                            );
                        },
                    }
                }
            },
            _ => {},
        }
    }
}

/// The first line of a self-contained command string, verbatim.
pub open spec fn str_cmd_head(input: Seq<char>) -> Seq<char> {
    let i = crate::chars::find_pos(input, '\n');
    if i >= input.len() {
        input
    } else {
        input.take(i as int)
    }
}

/// The remaining lines of a self-contained command string: its verbatim
/// text block, one trailing CR stripped per line.
pub open spec fn str_cmd_pieces(input: Seq<char>) -> Seq<Seq<char>> {
    let i = crate::chars::find_pos(input, '\n');
    if i >= input.len() {
        Seq::empty()
    } else {
        crate::chars::split_script_spec(input.skip(i as int + 1))
    }
}

/// Whether a self-contained command string parses: its first line under
/// the whole-block grammar, and extra lines only for an operation that
/// takes a text block.
pub open spec fn str_cmd_parses(input: Seq<char>) -> bool {
    &&& cmd_parses(str_cmd_head(input), str_cmd_pieces(input), 0, true)
    &&& (str_cmd_pieces(input).len() > 0 ==> shape_takes_block(
        trim_spec(cmd_op_rest(str_cmd_head(input))),
    ))
}

/// How a command corresponds to its self-contained string.
pub open spec fn str_cmd_rep(c: Command, input: Seq<char>) -> bool {
    cmd_rep(
        c,
        str_cmd_head(input),
        str_cmd_pieces(input),
        0,
        cmd_next_cursor(str_cmd_head(input), str_cmd_pieces(input), 0, true),
        true,
    )
}

/// Parse one self-contained command string: the first line is the
/// command, any further lines are its text block verbatim (no terminator
/// needed); extra lines on a command that takes no text block are an
/// error.
pub fn parse_command_with_text_from_str(input: &str) -> (r: Result<Command, EditError>)
    ensures
        r is Ok <==> str_cmd_parses(input@),
        r matches Ok(c) ==> str_cmd_rep(c, input@) && cmd_wf(c),
{
    let n = input.unicode_len();
    let nl = find_char(input, 0, n, '\n');
    let (first, blocklines): (&str, Vec<String>) = match nl {
        None => {
            proof {
                crate::chars::lemma_find_pos_none(input@, '\n');
            }
            (input, Vec::new())
        },
        Some(i) => {
            proof {
                crate::chars::lemma_find_pos_unique(input@, '\n', i as int);
            }
            let head = input.substring_char(0, i);
            let tail = input.substring_char(i + 1, n);
            proof {
                assert(head@ == input@.subrange(0, i as int));
                assert(head@ =~= str_cmd_head(input@));
                assert(tail@ == input@.skip(i as int + 1));
            }
            (head, split_script(tail))
        },
    };
    proof {
        assert(views_of(blocklines@) =~= str_cmd_pieces(input@));
    }
    let has_text = blocklines.len() > 0;
    let mut cursor: usize = 0;
    let cmd = match parse_command_with_text(first, blocklines.as_slice(), &mut cursor, true) {
        Ok(c) => c,
        Err(e) => {
            return Err(e);
        },
    };
    proof {
        lemma_cmd_rep_cursor(
            cmd,
            first@,
            views_of(blocklines@),
            0,
            cursor as int,
            true,
        );
        lemma_rep_takes_block(
            cmd.cmd,
            trim_spec(cmd_op_rest(first@)),
            views_of(blocklines@),
            0,
            cursor as int,
            true,
        );
    }
    if has_text {
        match &cmd.cmd {
            Subcommand::Append(_) | Subcommand::Insert(_) | Subcommand::Change(_) => {},
            Subcommand::Global { cmd: sub, .. } => match &**sub {
                Subcommand::Append(_) | Subcommand::Insert(_) | Subcommand::Change(_) => {},
                _ => {
                    return Err(EditError::from_text("unexpected multiline input for this command"));
                },
            },
            _ => {
                return Err(EditError::from_text("unexpected multiline input for this command"));
            },
        }
    }
    Ok(cmd)
}

/// Whether every self-contained command string in a list parses, the
/// blank ones skipped.
pub open spec fn strs_parses(inputs: Seq<Seq<char>>, i: int) -> bool
    decreases inputs.len() - i,
{
    if i < 0 || i >= inputs.len() {
        true
    } else if trim_spec(inputs[i]).len() == 0 {
        strs_parses(inputs, i + 1)
    } else {
        str_cmd_parses(inputs[i]) && strs_parses(inputs, i + 1)
    }
}

/// How a command sequence corresponds to a list of self-contained
/// command strings: one command per non-blank string, in order.
pub open spec fn strs_rep(cmds: Seq<Command>, inputs: Seq<Seq<char>>, i: int, k: int) -> bool
    decreases inputs.len() - i,
{
    if i < 0 || i >= inputs.len() {
        k == cmds.len()
    } else if trim_spec(inputs[i]).len() == 0 {
        strs_rep(cmds, inputs, i + 1, k)
    } else {
        &&& 0 <= k < cmds.len()
        &&& str_cmd_rep(cmds[k], inputs[i])
        &&& strs_rep(cmds, inputs, i + 1, k + 1)
    }
}

/// The views of a sequence of string slices.
pub open spec fn str_views(a: Seq<&str>) -> Seq<Seq<char>> {
    Seq::new(a.len(), |i: int| a[i]@)
}

/// Parse commands from a list of individual command strings (for
/// programmatic callers). Each string is one command; its own lines
/// after the first are the text block. Succeeds exactly when every
/// non-blank string parses, and then returns their commands in order.
pub fn parse_commands_from_strs(cmds: &[&str]) -> (r: Result<Vec<Command>, EditError>)
    ensures
        r is Ok <==> strs_parses(str_views(cmds@), 0),
        r matches Ok(v) ==> strs_rep(v@, str_views(cmds@), 0, 0) && cmds_wf(v@),
{
    let ghost iv = str_views(cmds@);
    let mut out: Vec<Command> = Vec::new();
    let mut i: usize = 0;
    while i < cmds.len()
        invariant
            i <= cmds@.len(),
            iv == str_views(cmds@),
            cmds_wf(out@),
            strs_parses(iv, 0) == strs_parses(iv, i as int),
            forall|full: Seq<Command>|
                full.len() >= out@.len() && full.take(out@.len() as int) == out@
                    && #[trigger] strs_rep(full, iv, i as int, out@.len() as int) ==> strs_rep(
                    full,
                    iv,
                    0,
                    0,
                ),
        decreases cmds@.len() - i,
    {
        let ghost j = i as int;
        let ghost pre = out@;
        let s: &str = cmds[i];
        i = i + 1;
        let t = trim(s);
        proof {
            assert(iv[j] == s@);
        }
        if t.unicode_len() == 0 {
            proof {
                assert(strs_parses(iv, j) == strs_parses(iv, j + 1));
                assert forall|full: Seq<Command>|
                    full.len() >= out@.len() && full.take(out@.len() as int) == out@
                        && #[trigger] strs_rep(full, iv, j + 1, out@.len() as int) implies
                    strs_rep(full, iv, 0, 0) by {
                    assert(strs_rep(full, iv, j, out@.len() as int));
                }
            }
            continue;
        }
        match parse_command_with_text_from_str(s) {
            Ok(c) => {
                proof {
                    assert(strs_parses(iv, j) == strs_parses(iv, j + 1));
                }
                out.push(c);
                proof {
                    assert forall|k: int| 0 <= k < out@.len() implies cmd_wf(
                        #[trigger] out@[k],
                    ) by {
                        if k < pre.len() {
                            assert(out@[k] == pre[k]);
                        }
                    }
                    assert forall|full: Seq<Command>|
                        full.len() >= out@.len() && full.take(out@.len() as int) == out@
                            && #[trigger] strs_rep(full, iv, j + 1, out@.len() as int) implies
                        strs_rep(full, iv, 0, 0) by {
                        let k = pre.len() as int;
                        assert(full[k] == c) by {
                            assert(full.take(k + 1)[k] == full[k]);
                        }
                        assert(full.take(k) =~= pre) by {
                            assert forall|w: int| 0 <= w < k implies full.take(k)[w]
                                == pre[w] by {
                                assert(full.take(k + 1)[w] == full[w]);
                            }
                        }
                        assert(strs_rep(full, iv, j, k));
                    }
                }
            },
            Err(e) => {
                proof {
                    assert(!strs_parses(iv, j));
                }
                return Err(e);
            },
        }
    }
    proof {
        assert(strs_parses(iv, cmds@.len() as int));
        assert(strs_rep(out@, iv, i as int, out@.len() as int));
        assert(out@.take(out@.len() as int) =~= out@);
    }
    Ok(out)
}

/// Whether every command-line token parses against the one shared
/// stream of input lines, threaded in command order.
pub open spec fn args_parses(
    args: Seq<Seq<char>>,
    stream: Seq<Seq<char>>,
    j: int,
    cur: int,
) -> bool
    decreases args.len() - j,
{
    if j < 0 || j >= args.len() {
        true
    } else {
        &&& cmd_parses(args[j], stream, cur, false)
        &&& args_parses(args, stream, j + 1, cmd_next_cursor(args[j], stream, cur, false))
    }
}

/// How a command sequence corresponds to command-line tokens: exactly
/// one command per token, in order, the shared stream cursor threaded
/// through the text blocks they consume.
pub open spec fn args_rep(
    cmds: Seq<Command>,
    args: Seq<Seq<char>>,
    stream: Seq<Seq<char>>,
    j: int,
    cur: int,
) -> bool
    decreases args.len() - j,
{
    if j < 0 || j >= args.len() {
        cmds.len() == j
    } else {
        &&& j < cmds.len()
        &&& cmd_rep(cmds[j], args[j], stream, cur, cmd_next_cursor(args[j], stream, cur, false), false)
        &&& args_rep(cmds, args, stream, j + 1, cmd_next_cursor(args[j], stream, cur, false))
    }
}

/// Parse commands from command-line tokens, reading any multiline text
/// blocks from `stream`: one shared sequence of input lines (stdin,
/// already split into lines by the caller) serves all the commands in
/// order. Succeeds exactly when every token parses, and then returns one
/// command per token.
pub fn parse_commands_from_args(args: &[String], stream: &[String]) -> (r: Result<
    Vec<Command>,
    EditError,
>)
    ensures
        r is Ok <==> args_parses(views_of(args@), views_of(stream@), 0, 0),
        r matches Ok(v) ==> args_rep(v@, views_of(args@), views_of(stream@), 0, 0) && cmds_wf(
            v@,
        ),
{
    let ghost av = views_of(args@);
    let ghost sv = views_of(stream@);
    let mut out: Vec<Command> = Vec::new();
    let mut cursor: usize = 0;
    let mut i: usize = 0;
    while i < args.len()
        invariant
            i <= args@.len(),
            cursor <= stream@.len(),
            av == views_of(args@),
            sv == views_of(stream@),
            out@.len() == i,
            cmds_wf(out@),
            args_parses(av, sv, 0, 0) == args_parses(av, sv, i as int, cursor as int),
            forall|full: Seq<Command>|
                full.len() >= out@.len() && full.take(out@.len() as int) == out@
                    && #[trigger] args_rep(full, av, sv, i as int, cursor as int) ==> args_rep(
                    full,
                    av,
                    sv,
                    0,
                    0,
                ),
        decreases args@.len() - i,
    {
        let ghost j = i as int;
        let ghost cur0 = cursor as int;
        let ghost pre = out@;
        let a: &String = &args[i];
        i = i + 1;
        proof {
            assert(av[j] == a@);
        }
        match parse_command_with_text(a.as_str(), stream, &mut cursor, false) {
            Ok(c) => {
                proof {
                    lemma_cmd_rep_cursor(c, a@, sv, cur0, cursor as int, false);
                    assert(cursor as int == cmd_next_cursor(av[j], sv, cur0, false));
                    assert(args_parses(av, sv, 0, 0) == args_parses(
                        av,
                        sv,
                        j + 1,
                        cursor as int,
                    ));
                }
                out.push(c);
                proof {
                    assert forall|k: int| 0 <= k < out@.len() implies cmd_wf(
                        #[trigger] out@[k],
                    ) by {
                        if k < pre.len() {
                            assert(out@[k] == pre[k]);
                        }
                    }
                    assert forall|full: Seq<Command>|
                        full.len() >= out@.len() && full.take(out@.len() as int) == out@
                            && #[trigger] args_rep(full, av, sv, j + 1, cursor as int) implies
                        args_rep(full, av, sv, 0, 0) by {
                        let k = pre.len() as int;
                        assert(full[k] == c) by {
                            assert(full.take(k + 1)[k] == full[k]);
                        }
                        assert(full.take(k) =~= pre) by {
                            assert forall|w: int| 0 <= w < k implies full.take(k)[w]
                                == pre[w] by {
                                assert(full.take(k + 1)[w] == full[w]);
                            }
                        }
                        assert(args_rep(full, av, sv, j, cur0));
                    }
                }
            },
            Err(e) => {
                proof {
                    assert(!args_parses(av, sv, j, cur0));
                }
                return Err(e);
            },
        }
    }
    proof {
        assert(args_parses(av, sv, args@.len() as int, cursor as int));
        assert(args_rep(out@, av, sv, i as int, cursor as int));
        assert(out@.take(out@.len() as int) =~= out@);
    }
    Ok(out)
}

} // verus!
