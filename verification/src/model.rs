//! The mathematical model of the edit engine: a buffer is a sequence of
//! line models plus the set of deleted origins, and every operation is a
//! function from buffer to buffer (or to `None` on error). The executable
//! engine is proved to compute exactly these functions.

use vstd::prelude::*;

use crate::chars::{is_whitespace_char, lex_le, views_of};
use crate::lnhash::line_hash_spec;
use crate::parse::{Command, Subcommand, is_text_insert};
use crate::pattern::{regex_builds, regex_matches, replace_all_of, replace_first_of};

verus! {

/// One buffer line: its text, the 1-based position it held in the pristine
/// input (`None` for lines introduced by the script), the write-once
/// modification flag, and the global command's transient pending mark.
pub ghost struct LineModel {
    pub text: Seq<char>,
    pub origin: Option<usize>,
    pub modified: bool,
    pub mark: bool,
}

/// The working buffer: the current lines and the origins recorded as
/// deleted.
pub ghost struct BufModel {
    pub lines: Seq<LineModel>,
    pub deleted: Set<usize>,
}

/// A line introduced by the script: no origin, marked modified.
pub open spec fn new_line(t: Seq<char>) -> LineModel {
    LineModel { text: t, origin: None, modified: true, mark: false }
}

/// The lines of a text block, as inserted into the buffer.
pub open spec fn block_lines(texts: Seq<Seq<char>>) -> Seq<LineModel> {
    Seq::new(texts.len(), |i: int| new_line(texts[i]))
}

/// The texts of a sequence of lines.
pub open spec fn texts_of(lines: Seq<LineModel>) -> Seq<Seq<char>> {
    Seq::new(lines.len(), |i: int| lines[i].text)
}

/// A `[start, end]` range (1-based, inclusive) is addressable in a buffer
/// of `len` lines.
pub open spec fn resolve_ok(len: int, start: int, end: int) -> bool {
    start >= 1 && end >= 1 && start <= end && end <= len
}

/// The origins present among `lines[s ..= e]`.
pub open spec fn origins_in(lines: Seq<LineModel>, s: int, e: int) -> Set<usize> {
    Set::new(
        |o: usize|
            exists|i: int| s <= i <= e && 0 <= i < lines.len() && lines[i].origin == Some(o),
    )
}

/// Delete `[start, end]`; every removed line's origin joins the deleted
/// set.
pub open spec fn delete_spec(buf: BufModel, start: int, end: int) -> Option<BufModel> {
    if !resolve_ok(buf.lines.len() as int, start, end) {
        None
    } else {
        Some(
            BufModel {
                lines: buf.lines.take(start - 1) + buf.lines.skip(end),
                deleted: buf.deleted.union(origins_in(buf.lines, start - 1, end - 1)),
            },
        )
    }
}

/// One line under substitute: with the `g` flag every match is replaced;
/// otherwise only the first, and a line without a match is left untouched.
/// The line is marked modified exactly when its text changed.
pub open spec fn subst_line(
    l: LineModel,
    pat: Seq<char>,
    rep: Seq<char>,
    g: bool,
    ci: bool,
) -> LineModel {
    let new = if g {
        replace_all_of(pat, ci, rep, l.text)
    } else if regex_matches(pat, ci, l.text) {
        replace_first_of(pat, ci, rep, l.text)
    } else {
        l.text
    };
    LineModel { text: new, modified: l.modified || new != l.text, ..l }
}

/// Substitute over `[start, end]`.
pub open spec fn substitute_spec(
    buf: BufModel,
    start: int,
    end: int,
    pat: Seq<char>,
    rep: Seq<char>,
    g: bool,
    ci: bool,
) -> Option<BufModel> {
    if !resolve_ok(buf.lines.len() as int, start, end) {
        None
    } else if !regex_builds(pat, ci) {
        None
    } else {
        Some(
            BufModel {
                lines: Seq::new(
                    buf.lines.len(),
                    |i: int|
                        if start - 1 <= i <= end - 1 {
                            subst_line(buf.lines[i], pat, rep, g, ci)
                        } else {
                            buf.lines[i]
                        },
                ),
                deleted: buf.deleted,
            },
        )
    }
}

/// Insert `texts` at the 0-based position `p`.
pub open spec fn insert_at(buf: BufModel, p: int, texts: Seq<Seq<char>>) -> BufModel {
    BufModel {
        lines: buf.lines.take(p) + block_lines(texts) + buf.lines.skip(p),
        deleted: buf.deleted,
    }
}

/// Append the text block after `end` (or before the first line for the
/// `0` sentinel). An empty block is a no-op.
pub open spec fn append_spec(
    buf: BufModel,
    start: int,
    end: int,
    texts: Seq<Seq<char>>,
) -> Option<BufModel> {
    let p = if start == 0 {
        0int
    } else {
        end
    };
    if p != 0 && p > buf.lines.len() {
        None
    } else if texts.len() == 0 {
        Some(buf)
    } else {
        Some(insert_at(buf, p, texts))
    }
}

/// Insert the text block before `before` (or before the first line for
/// the `0` sentinel). An empty block is a no-op.
pub open spec fn insert_spec(buf: BufModel, before: int, texts: Seq<Seq<char>>) -> Option<
    BufModel,
> {
    if before != 0 && before > buf.lines.len() {
        None
    } else {
        let p = if before == 0 {
            0int
        } else {
            before - 1
        };
        if texts.len() == 0 {
            Some(buf)
        } else {
            Some(insert_at(buf, p, texts))
        }
    }
}

/// Change `[start, end]`: delete the range, then insert the block at its
/// position.
pub open spec fn change_spec(
    buf: BufModel,
    start: int,
    end: int,
    texts: Seq<Seq<char>>,
) -> Option<BufModel> {
    if !resolve_ok(buf.lines.len() as int, start, end) {
        None
    } else {
        let removed = BufModel {
            lines: buf.lines.take(start - 1) + buf.lines.skip(end),
            deleted: buf.deleted.union(origins_in(buf.lines, start - 1, end - 1)),
        };
        if texts.len() == 0 {
            Some(removed)
        } else {
            Some(insert_at(removed, start - 1, texts))
        }
    }
}

/// The whitespace-aware join of two line texts: a single space separator,
/// unless either side already touches whitespace at the seam (or one side
/// is empty), in which case plain concatenation.
pub open spec fn join_texts(a: Seq<char>, b: Seq<char>) -> Seq<char> {
    if a.len() == 0 {
        b
    } else if b.len() == 0 {
        a
    } else if is_whitespace_char(a[a.len() - 1]) || is_whitespace_char(b[0]) {
        a + b
    } else {
        a + seq![' '] + b
    }
}

/// Join the addressed line with the next one.
pub open spec fn join_next_spec(buf: BufModel, line: int) -> Option<BufModel> {
    if line == 0 || buf.lines.len() < 2 || line >= buf.lines.len() || line < 0 {
        None
    } else {
        let idx = line - 1;
        let joined = join_texts(buf.lines[idx].text, buf.lines[idx + 1].text);
        let l0 = buf.lines[idx];
        let l1 = LineModel {
            text: joined,
            modified: l0.modified || joined != l0.text,
            ..l0
        };
        Some(
            BufModel {
                lines: buf.lines.take(idx).push(l1) + buf.lines.skip(idx + 2),
                deleted: buf.deleted.union(origins_in(buf.lines, idx + 1, idx + 1)),
            },
        )
    }
}

/// Fold `lines[s ..= e]` left to right with the pairwise join rule.
pub open spec fn fold_join(lines: Seq<LineModel>, s: int, e: int) -> Seq<char>
    decreases e - s,
{
    if e <= s {
        lines[s].text
    } else {
        join_texts(fold_join(lines, s, e - 1), lines[e].text)
    }
}

/// Join a whole range into one line at `start`; a one-line range is a
/// no-op.
pub open spec fn join_range_spec(buf: BufModel, start: int, end: int) -> Option<BufModel> {
    if !resolve_ok(buf.lines.len() as int, start, end) {
        None
    } else if start == end {
        Some(buf)
    } else {
        let s = start - 1;
        let e = end - 1;
        let joined = fold_join(buf.lines, s, e);
        let l0 = buf.lines[s];
        let l1 = LineModel {
            text: joined,
            modified: l0.modified || joined != l0.text,
            ..l0
        };
        Some(
            BufModel {
                lines: buf.lines.take(s).push(l1) + buf.lines.skip(e + 1),
                deleted: buf.deleted.union(origins_in(buf.lines, s + 1, e)),
            },
        )
    }
}

/// A line as it travels in a move: marked modified, origin kept.
pub open spec fn moved_line(l: LineModel) -> LineModel {
    LineModel { modified: true, ..l }
}

/// Move `[start, end]` after `dest`; the destination may not lie inside
/// the moved range. Moved lines keep their origins and are marked
/// modified; the deleted set is unchanged.
pub open spec fn move_spec(buf: BufModel, start: int, end: int, dest: int) -> Option<BufModel> {
    if !resolve_ok(buf.lines.len() as int, start, end) {
        None
    } else if dest < 1 {
        None
    } else if dest > buf.lines.len() {
        None
    } else if start <= dest <= end {
        None
    } else {
        let s = start - 1;
        let e = end - 1;
        let seg = Seq::new((end - start + 1) as nat, |i: int| moved_line(buf.lines[s + i]));
        let remain = buf.lines.take(s) + buf.lines.skip(e + 1);
        let at = if dest < start {
            dest
        } else {
            dest - (end - start + 1)
        };
        Some(
            BufModel {
                lines: remain.take(at) + seg + remain.skip(at),
                deleted: buf.deleted,
            },
        )
    }
}

/// Copy `[start, end]` after `dest`: fresh, origin-less, modified clones;
/// the originals are untouched.
pub open spec fn copy_spec(buf: BufModel, start: int, end: int, dest: int) -> Option<BufModel> {
    if !resolve_ok(buf.lines.len() as int, start, end) {
        None
    } else if dest < 1 {
        None
    } else if dest > buf.lines.len() {
        None
    } else {
        let s = start - 1;
        let seg = Seq::new((end - start + 1) as nat, |i: int| new_line(buf.lines[s + i].text));
        Some(
            BufModel {
                lines: buf.lines.take(dest) + seg + buf.lines.skip(dest),
                deleted: buf.deleted,
            },
        )
    }
}

/// `n` space characters.
pub open spec fn spaces(n: nat) -> Seq<char> {
    Seq::new(n, |i: int| ' ')
}

/// A line under indent: `levels * 4` spaces prepended, always marked
/// modified.
pub open spec fn indented_line(l: LineModel, levels: int) -> LineModel {
    LineModel { text: spaces((4 * levels) as nat) + l.text, modified: true, ..l }
}

/// Indent: prepend `levels * 4` spaces to every line in range and mark it
/// modified; zero levels is a no-op.
pub open spec fn indent_spec(buf: BufModel, start: int, end: int, levels: int) -> Option<
    BufModel,
> {
    if !resolve_ok(buf.lines.len() as int, start, end) {
        None
    } else if levels == 0 {
        Some(buf)
    } else {
        Some(
            BufModel {
                lines: Seq::new(
                    buf.lines.len(),
                    |i: int|
                        if start - 1 <= i <= end - 1 {
                            indented_line(buf.lines[i], levels)
                        } else {
                            buf.lines[i]
                        },
                ),
                deleted: buf.deleted,
            },
        )
    }
}

/// The number of leading spaces of a text.
pub open spec fn lead_spaces(t: Seq<char>) -> nat
    decreases t.len(),
{
    if t.len() == 0 || t[0] != ' ' {
        0
    } else {
        1 + lead_spaces(t.skip(1))
    }
}

/// One dedent level: strip four leading spaces, else one leading tab,
/// else as many leading spaces as are there (fewer than four).
pub open spec fn dedent_step(t: Seq<char>) -> Seq<char> {
    if lead_spaces(t) >= 4 {
        t.skip(4)
    } else if t.len() > 0 && t[0] == '\t' {
        t.skip(1)
    } else {
        t.skip(lead_spaces(t) as int)
    }
}

/// `levels` dedent steps. A step on a text without leading whitespace
/// changes nothing, so stopping early is equivalent.
pub open spec fn dedent_text(t: Seq<char>, levels: nat) -> Seq<char>
    decreases levels,
{
    if levels == 0 {
        t
    } else {
        dedent_text(dedent_step(t), (levels - 1) as nat)
    }
}

/// Dedent the range; a line is marked modified exactly when its text
/// changed. Zero levels is a no-op.
pub open spec fn dedent_spec(buf: BufModel, start: int, end: int, levels: int) -> Option<
    BufModel,
> {
    if !resolve_ok(buf.lines.len() as int, start, end) {
        None
    } else if levels == 0 {
        Some(buf)
    } else {
        Some(
            BufModel {
                lines: Seq::new(
                    buf.lines.len(),
                    |i: int|
                        if start - 1 <= i <= end - 1 {
                            let new = dedent_text(buf.lines[i].text, levels as nat);
                            LineModel {
                                text: new,
                                modified: buf.lines[i].modified || new != buf.lines[i].text,
                                ..buf.lines[i]
                            }
                        } else {
                            buf.lines[i]
                        },
                ),
                deleted: buf.deleted,
            },
        )
    }
}

/// Insert `l` into an already sorted run, after any equal elements: the
/// step of a stable insertion sort by text.
pub open spec fn insert_sorted(l: LineModel, sorted: Seq<LineModel>) -> Seq<LineModel>
    decreases sorted.len(),
{
    if sorted.len() == 0 {
        seq![l]
    } else if lex_le(sorted[0].text, l.text) {
        seq![sorted[0]] + insert_sorted(l, sorted.skip(1))
    } else {
        seq![l] + sorted
    }
}

/// Stable insertion sort of lines by text.
pub open spec fn sort_lines(s: Seq<LineModel>) -> Seq<LineModel>
    decreases s.len(),
{
    if s.len() == 0 {
        s
    } else {
        insert_sorted(s.last(), sort_lines(s.drop_last()))
    }
}

/// Mark every line modified.
pub open spec fn mark_all_modified(s: Seq<LineModel>) -> Seq<LineModel> {
    Seq::new(s.len(), |i: int| LineModel { modified: true, ..s[i] })
}

/// Sort the subrange in place, stably and by ordinal text order; mark the
/// whole range modified exactly when the order changed. A one-line range
/// is a no-op.
pub open spec fn sort_spec(buf: BufModel, start: int, end: int) -> Option<BufModel> {
    if !resolve_ok(buf.lines.len() as int, start, end) {
        None
    } else if start == end {
        Some(buf)
    } else {
        let s = start - 1;
        let seg = buf.lines.subrange(s, end);
        let sorted = sort_lines(seg);
        let marked = if texts_of(sorted) != texts_of(seg) {
            mark_all_modified(sorted)
        } else {
            sorted
        };
        Some(
            BufModel {
                lines: buf.lines.take(s) + marked + buf.lines.skip(end),
                deleted: buf.deleted,
            },
        )
    }
}

/// Print: mark every line in range modified without altering content.
pub open spec fn print_spec(buf: BufModel, start: int, end: int) -> Option<BufModel> {
    if !resolve_ok(buf.lines.len() as int, start, end) {
        None
    } else {
        Some(
            BufModel {
                lines: Seq::new(
                    buf.lines.len(),
                    |i: int|
                        if start - 1 <= i <= end - 1 {
                            LineModel { modified: true, ..buf.lines[i] }
                        } else {
                            buf.lines[i]
                        },
                ),
                deleted: buf.deleted,
            },
        )
    }
}

/// The number of pending marks in the buffer.
pub open spec fn mark_count(lines: Seq<LineModel>) -> nat
    decreases lines.len(),
{
    if lines.len() == 0 {
        0
    } else {
        mark_count(lines.drop_last()) + if lines.last().mark {
            1nat
        } else {
            0nat
        }
    }
}

pub open spec fn unmark(l: LineModel) -> LineModel {
    LineModel { mark: false, ..l }
}

/// All marks cleared.
pub open spec fn clear_marks(lines: Seq<LineModel>) -> Seq<LineModel> {
    Seq::new(lines.len(), |i: int| unmark(lines[i]))
}

/// The rescan walk of the global command: examine the position at `idx`;
/// a marked line is unmarked and the inner operation is applied to it as
/// a one-address command, after which the same position is examined
/// again; an unmarked position advances the walk. The walk stops at the
/// end of the (possibly resized) buffer. Each application strictly
/// lowers the mark count, which is what the recursion here decreases
/// on; the guard that checks this makes the definition well-founded, and
/// `lemma_apply_op_mark_count` shows it never fails, since no operation
/// introduces marks.
pub open spec fn run_global(buf: BufModel, idx: int, op: Subcommand) -> Option<BufModel>
    decreases op, 1int, mark_count(buf.lines), buf.lines.len() - idx,
{
    if idx < 0 {
        None
    } else if idx >= buf.lines.len() {
        Some(buf)
    } else if buf.lines[idx].mark {
        let buf2 = BufModel {
            lines: buf.lines.update(idx, unmark(buf.lines[idx])),
            deleted: buf.deleted,
        };
        match apply_op(buf2, idx + 1, idx + 1, false, op) {
            None => None,
            Some(b3) => if mark_count(b3.lines) < mark_count(buf.lines) {
                run_global(b3, idx, op)
            } else {
                None
            },
        }
    } else {
        run_global(buf, idx + 1, op)
    }
}

/// The global command: mark every selected line in `[start, end]` (those
/// matching the pattern, or not matching it when inverted), run the
/// rescan walk from the top of the buffer, and clear any marks left.
///
/// The pending marks live on the lines themselves, as a single per-line
/// flag. A global nested inside a global therefore re-marks and finally
/// clears every line's flag, wiping whatever pending marks the outer
/// walk still had: the outer walk then finds nothing more to do. This is
/// a deliberate choice: it is the engine's mark-based execution exactly
/// as the operation table describes it, kept in preference to giving
/// each invocation a private pending set, which would make the two
/// nested walks independent and change observable results.
pub open spec fn global_spec(
    buf: BufModel,
    start: int,
    end: int,
    invert: bool,
    pat: Seq<char>,
    inner: Subcommand,
) -> Option<BufModel>
    decreases inner, 2int, 0int, 0int,
{
    if !resolve_ok(buf.lines.len() as int, start, end) {
        None
    } else if !regex_builds(pat, false) {
        None
    } else {
        let marked = BufModel {
            lines: Seq::new(
                buf.lines.len(),
                |i: int|
                    LineModel {
                        mark: (start - 1 <= i <= end - 1) && (regex_matches(
                            pat,
                            false,
                            buf.lines[i].text,
                        ) != invert),
                        ..buf.lines[i]
                    },
            ),
            deleted: buf.deleted,
        };
        match run_global(marked, 0, inner) {
            None => None,
            Some(b) => Some(BufModel { lines: clear_marks(b.lines), deleted: b.deleted }),
        }
    }
}

/// One operation applied to the addressed range of the buffer.
pub open spec fn apply_op(
    buf: BufModel,
    start: int,
    end: int,
    has_comma: bool,
    op: Subcommand,
) -> Option<BufModel>
    decreases op, 0int, 0int, 0int,
{
    match op {
        Subcommand::Delete => delete_spec(buf, start, end),
        Subcommand::Substitute(sub) => substitute_spec(
            buf,
            start,
            end,
            sub.pattern@,
            sub.replacement@,
            sub.global,
            sub.case_insensitive,
        ),
        Subcommand::Append(texts) => append_spec(buf, start, end, views_of(texts@)),
        Subcommand::Insert(texts) => insert_spec(buf, start, views_of(texts@)),
        Subcommand::Change(texts) => change_spec(buf, start, end, views_of(texts@)),
        Subcommand::Join => if has_comma {
            join_range_spec(buf, start, end)
        } else {
            join_next_spec(buf, start)
        },
        Subcommand::Move { dest } => move_spec(buf, start, end, dest.lineno as int),
        Subcommand::Copy { dest } => copy_spec(buf, start, end, dest.lineno as int),
        Subcommand::Global { invert, pattern, cmd } => global_spec(
            buf,
            start,
            end,
            invert,
            pattern@,
            *cmd,
        ),
        Subcommand::Indent { levels } => indent_spec(buf, start, end, levels as int),
        Subcommand::Dedent { levels } => dedent_spec(buf, start, end, levels as int),
        Subcommand::Sort => sort_spec(buf, start, end),
        Subcommand::Print => print_spec(buf, start, end),
    }
}

/// One whole command: the range is `addr1` to `addr2` (or `addr1` alone),
/// and a backwards range is refused up front unless it is the sentinel.
pub open spec fn apply_command_spec(buf: BufModel, c: Command) -> Option<BufModel> {
    let start = c.addr1.lineno as int;
    let end = if c.addr2 is Some {
        c.addr2.unwrap().lineno as int
    } else {
        start
    };
    if start > end && start != 0 {
        None
    } else {
        apply_op(buf, start, end, c.has_comma, c.cmd)
    }
}

/// The command sequence applied in script order, from index `i` on.
pub open spec fn run_cmds(buf: BufModel, cmds: Seq<Command>, i: int) -> Option<BufModel>
    decreases cmds.len() - i,
{
    if i >= cmds.len() {
        Some(buf)
    } else {
        match apply_command_spec(buf, cmds[i]) {
            None => None,
            Some(b) => run_cmds(b, cmds, i + 1),
        }
    }
}

/// The pristine buffer built from the input lines.
pub open spec fn init_buf(texts: Seq<Seq<char>>) -> BufModel {
    BufModel {
        lines: Seq::new(
            texts.len(),
            |i: int|
                LineModel {
                    text: texts[i],
                    origin: Some((i + 1) as usize),
                    modified: false,
                    mark: false,
                },
        ),
        deleted: Set::empty(),
    }
}

/// A single address is certified against the pristine input: within
/// bounds and carrying the current content hash.
pub open spec fn addr_ok_basic(texts: Seq<Seq<char>>, a: crate::lnhash::LnHash) -> bool {
    1 <= a.lineno <= texts.len() && line_hash_spec(texts[a.lineno - 1]) == a.hash
}

/// A command's own address: the `0` sentinel is exempt from the hash
/// check but must carry hash `0` and accompany Insert/Append.
pub open spec fn addr_ok(texts: Seq<Seq<char>>, a: crate::lnhash::LnHash, op: Subcommand) -> bool {
    if a.lineno == 0 {
        a.hash == 0 && is_text_insert(op)
    } else {
        addr_ok_basic(texts, a)
    }
}

/// Destination addresses nested in the operation, recursively through
/// Global.
pub open spec fn refs_ok(texts: Seq<Seq<char>>, op: Subcommand) -> bool
    decreases op,
{
    match op {
        Subcommand::Move { dest } => addr_ok_basic(texts, dest),
        Subcommand::Copy { dest } => addr_ok_basic(texts, dest),
        Subcommand::Global { cmd, .. } => refs_ok(texts, *cmd),
        _ => true,
    }
}

/// Every address referenced anywhere in the command is certified against
/// the pristine input.
pub open spec fn cmd_addrs_ok(texts: Seq<Seq<char>>, c: Command) -> bool {
    &&& addr_ok(texts, c.addr1, c.cmd)
    &&& (c.addr2 is Some ==> addr_ok(texts, c.addr2.unwrap(), c.cmd))
    &&& refs_ok(texts, c.cmd)
}

/// The one-shot validation of a whole script against the pristine input.
pub open spec fn validate_spec(texts: Seq<Seq<char>>, cmds: Seq<Command>) -> bool {
    forall|k: int| 0 <= k < cmds.len() ==> cmd_addrs_ok(texts, #[trigger] cmds[k])
}

/// The ascending 1-based positions of the modified lines, from index `i`
/// on.
pub open spec fn mod_positions(lines: Seq<LineModel>, i: int) -> Seq<usize>
    decreases lines.len() - i,
{
    if i < 0 || i >= lines.len() {
        Seq::empty()
    } else if lines[i].modified {
        seq![(i + 1) as usize] + mod_positions(lines, i + 1)
    } else {
        mod_positions(lines, i + 1)
    }
}

/// A strictly ascending sequence.
pub open spec fn strictly_ascending(s: Seq<usize>) -> bool {
    forall|i: int, j: int| 0 <= i < j < s.len() ==> s[i] < s[j]
}

pub proof fn lemma_origins_congruent(a: Seq<LineModel>, b: Seq<LineModel>, s: int, e: int)
    requires
        a.len() == b.len(),
        forall|i: int| s <= i <= e && 0 <= i < a.len() ==> a[i] == b[i],
    ensures
        origins_in(a, s, e) == origins_in(b, s, e),
{
    assert forall|x: usize| origins_in(a, s, e).contains(x) implies origins_in(b, s, e).contains(
        x,
    ) by {
        let w = choose|w: int| s <= w <= e && 0 <= w < a.len() && a[w].origin == Some(x);
        assert(b[w].origin == Some(x));
    }
    assert forall|x: usize| origins_in(b, s, e).contains(x) implies origins_in(a, s, e).contains(
        x,
    ) by {
        let w = choose|w: int| s <= w <= e && 0 <= w < b.len() && b[w].origin == Some(x);
        assert(a[w].origin == Some(x));
    }
    assert(origins_in(a, s, e) =~= origins_in(b, s, e));
}

pub proof fn lemma_mark_count_concat(a: Seq<LineModel>, b: Seq<LineModel>)
    ensures
        mark_count(a + b) == mark_count(a) + mark_count(b),
    decreases b.len(),
{
    if b.len() == 0 {
        assert(a + b =~= a);
    } else {
        assert((a + b).drop_last() =~= a + b.drop_last());
        assert((a + b).last() == b.last());
        lemma_mark_count_concat(a, b.drop_last());
    }
}

pub proof fn lemma_mark_count_none(s: Seq<LineModel>)
    requires
        forall|k: int| 0 <= k < s.len() ==> !(#[trigger] s[k]).mark,
    ensures
        mark_count(s) == 0,
    decreases s.len(),
{
    if s.len() > 0 {
        lemma_mark_count_none(s.drop_last());
    }
}

pub proof fn lemma_mark_count_update(s: Seq<LineModel>, i: int, l: LineModel)
    requires
        0 <= i < s.len(),
    ensures
        mark_count(s.update(i, l)) + (if s[i].mark {
            1int
        } else {
            0int
        }) == mark_count(s) + (if l.mark {
            1int
        } else {
            0int
        }),
    decreases s.len(),
{
    if i == s.len() - 1 {
        assert(s.update(i, l).drop_last() =~= s.drop_last());
        assert(s.update(i, l).last() == l);
    } else {
        assert(s.update(i, l).drop_last() =~= s.drop_last().update(i, l));
        assert(s.update(i, l).last() == s.last());
        lemma_mark_count_update(s.drop_last(), i, l);
    }
}

pub proof fn lemma_mark_count_pointwise(a: Seq<LineModel>, b: Seq<LineModel>)
    requires
        a.len() == b.len(),
        forall|i: int| 0 <= i < a.len() ==> (#[trigger] a[i]).mark == b[i].mark,
    ensures
        mark_count(a) == mark_count(b),
    decreases a.len(),
{
    if a.len() > 0 {
        assert(forall|i: int|
            0 <= i < a.drop_last().len() ==> (#[trigger] a.drop_last()[i]).mark
                == b.drop_last()[i].mark);
        lemma_mark_count_pointwise(a.drop_last(), b.drop_last());
        assert(a.last().mark == b.last().mark);
    }
}

proof fn lemma_mark_count_le_skip(s: Seq<LineModel>, i: int, j: int)
    requires
        0 <= i <= j <= s.len(),
    ensures
        mark_count(s.skip(j)) <= mark_count(s.skip(i)),
{
    assert(s.skip(i) =~= s.subrange(i, j) + s.skip(j));
    lemma_mark_count_concat(s.subrange(i, j), s.skip(j));
}

proof fn lemma_mark_count_singleton(l: LineModel)
    ensures
        mark_count(seq![l]) == (if l.mark {
            1int
        } else {
            0int
        }),
{
    assert(seq![l].drop_last() =~= Seq::<LineModel>::empty());
    assert(mark_count(Seq::<LineModel>::empty()) == 0);
    assert(seq![l].last() == l);
}

proof fn lemma_insert_sorted_mark_count(l: LineModel, s: Seq<LineModel>)
    ensures
        mark_count(insert_sorted(l, s)) == mark_count(s) + (if l.mark {
            1int
        } else {
            0int
        }),
    decreases s.len(),
{
    let r = insert_sorted(l, s);
    lemma_mark_count_singleton(l);
    if s.len() == 0 {
        assert(r =~= seq![l]);
        assert(mark_count(Seq::<LineModel>::empty()) == 0);
    } else if crate::chars::lex_le(s[0].text, l.text) {
        lemma_insert_sorted_mark_count(l, s.skip(1));
        lemma_mark_count_singleton(s[0]);
        lemma_mark_count_concat(seq![s[0]], insert_sorted(l, s.skip(1)));
        lemma_mark_count_concat(seq![s[0]], s.skip(1));
        assert(seq![s[0]] + s.skip(1) =~= s);
    } else {
        lemma_mark_count_concat(seq![l], s);
    }
}

proof fn lemma_sort_lines_mark_count(s: Seq<LineModel>)
    ensures
        mark_count(sort_lines(s)) == mark_count(s),
    decreases s.len(),
{
    if s.len() > 0 {
        lemma_sort_lines_mark_count(s.drop_last());
        lemma_insert_sorted_mark_count(s.last(), sort_lines(s.drop_last()));
    }
}

/// No operation ever introduces a pending mark: applying any operation
/// leaves the buffer with at most as many marks as before. This is what
/// makes the global command's rescan walk terminate.
#[verifier::rlimit(80)]
pub proof fn lemma_apply_op_mark_count(
    buf: BufModel,
    start: int,
    end: int,
    has_comma: bool,
    op: Subcommand,
)
    requires
        start >= 0,
        end >= 0,
        apply_op(buf, start, end, has_comma, op) is Some,
    ensures
        mark_count(apply_op(buf, start, end, has_comma, op).unwrap().lines) <= mark_count(
            buf.lines,
        ),
{
    let b = apply_op(buf, start, end, has_comma, op).unwrap();
    let lines = buf.lines;
    match op {
        Subcommand::Delete => {
            lemma_mark_count_concat(lines.take(start - 1), lines.skip(end));
            assert(lines.take(start - 1) + lines.skip(start - 1) =~= lines);
            lemma_mark_count_concat(lines.take(start - 1), lines.skip(start - 1));
            lemma_mark_count_le_skip(lines, start - 1, end);
        },
        Subcommand::Substitute(_) => {
            lemma_mark_count_pointwise(b.lines, lines);
        },
        Subcommand::Append(texts) => {
            if views_of(texts@).len() > 0 {
                let p = if start == 0 {
                    0int
                } else {
                    end
                };
                lemma_insert_block_mark_count(buf, p, views_of(texts@));
            }
        },
        Subcommand::Insert(texts) => {
            if views_of(texts@).len() > 0 {
                let p = if start == 0 {
                    0int
                } else {
                    start - 1
                };
                lemma_insert_block_mark_count(buf, p, views_of(texts@));
            }
        },
        Subcommand::Change(texts) => {
            lemma_mark_count_concat(lines.take(start - 1), lines.skip(end));
            assert(lines.take(start - 1) + lines.skip(start - 1) =~= lines);
            lemma_mark_count_concat(lines.take(start - 1), lines.skip(start - 1));
            lemma_mark_count_le_skip(lines, start - 1, end);
            let removed = BufModel {
                lines: lines.take(start - 1) + lines.skip(end),
                deleted: buf.deleted.union(origins_in(lines, start - 1, end - 1)),
            };
            if views_of(texts@).len() > 0 {
                lemma_insert_block_mark_count(removed, start - 1, views_of(texts@));
            }
        },
        Subcommand::Join => {
            if has_comma {
                if start != end {
                    let s = start - 1;
                    let e = end - 1;
                    let l0 = lines[s];
                    let l1 = LineModel {
                        text: fold_join(lines, s, e),
                        modified: l0.modified || fold_join(lines, s, e) != l0.text,
                        ..l0
                    };
                    lemma_mark_count_concat(lines.take(s).push(l1), lines.skip(e + 1));
                    lemma_mark_count_pointwise(lines.take(s).push(l1), lines.take(s + 1));
                    assert(lines.take(s + 1) + lines.skip(s + 1) =~= lines);
                    lemma_mark_count_concat(lines.take(s + 1), lines.skip(s + 1));
                    lemma_mark_count_le_skip(lines, s + 1, e + 1);
                }
            } else {
                let idx = start - 1;
                let l0 = lines[idx];
                let joined = join_texts(lines[idx].text, lines[idx + 1].text);
                let l1 = LineModel {
                    text: joined,
                    modified: l0.modified || joined != l0.text,
                    ..l0
                };
                lemma_mark_count_concat(lines.take(idx).push(l1), lines.skip(idx + 2));
                lemma_mark_count_pointwise(lines.take(idx).push(l1), lines.take(idx + 1));
                assert(lines.take(idx + 1) + lines.skip(idx + 1) =~= lines);
                lemma_mark_count_concat(lines.take(idx + 1), lines.skip(idx + 1));
                lemma_mark_count_le_skip(lines, idx + 1, idx + 2);
            }
        },
        Subcommand::Move { dest } => {
            let d = dest.lineno as int;
            let s = start - 1;
            let e = end - 1;
            let seg = Seq::new((end - start + 1) as nat, |i: int| moved_line(lines[s + i]));
            let remain = lines.take(s) + lines.skip(e + 1);
            let at = if d < start {
                d
            } else {
                d - (end - start + 1)
            };
            assert(0 <= at <= remain.len()) by {
                assert(lines.take(s).len() == s);
            }
            lemma_mark_count_concat(remain.take(at) + seg, remain.skip(at));
            lemma_mark_count_concat(remain.take(at), seg);
            assert(b.lines == (remain.take(at) + seg) + remain.skip(at));
            lemma_mark_count_pointwise(seg, lines.subrange(s, e + 1));
            assert(remain.take(at) + remain.skip(at) =~= remain);
            lemma_mark_count_concat(remain.take(at), remain.skip(at));
            lemma_mark_count_concat(lines.take(s), lines.skip(e + 1));
            assert(lines.take(s) + lines.subrange(s, e + 1) + lines.skip(e + 1) =~= lines);
            lemma_mark_count_concat(
                lines.take(s) + lines.subrange(s, e + 1),
                lines.skip(e + 1),
            );
            lemma_mark_count_concat(lines.take(s), lines.subrange(s, e + 1));
        },
        Subcommand::Copy { dest } => {
            let d = dest.lineno as int;
            let s = start - 1;
            let seg = Seq::new((end - start + 1) as nat, |i: int| new_line(lines[s + i].text));
            lemma_mark_count_concat(lines.take(d) + seg, lines.skip(d));
            lemma_mark_count_concat(lines.take(d), seg);
            assert(b.lines == (lines.take(d) + seg) + lines.skip(d));
            lemma_mark_count_none(seg);
            assert(lines.take(d) + lines.skip(d) =~= lines);
            lemma_mark_count_concat(lines.take(d), lines.skip(d));
        },
        Subcommand::Global { .. } => {
            assert(forall|k: int| 0 <= k < b.lines.len() ==> !(#[trigger] b.lines[k]).mark);
            lemma_mark_count_none(b.lines);
        },
        Subcommand::Indent { .. } => {
            if b.lines != lines {
                lemma_mark_count_pointwise(b.lines, lines);
            }
        },
        Subcommand::Dedent { .. } => {
            if b.lines != lines {
                lemma_mark_count_pointwise(b.lines, lines);
            }
        },
        Subcommand::Sort => {
            if start != end {
                let s = start - 1;
                let seg = lines.subrange(s, end);
                let sorted = sort_lines(seg);
                let marked = if texts_of(sorted) != texts_of(seg) {
                    mark_all_modified(sorted)
                } else {
                    sorted
                };
                lemma_sort_lines_mark_count(seg);
                lemma_mark_count_pointwise(marked, sorted);
                lemma_mark_count_concat(lines.take(s) + marked, lines.skip(end));
                lemma_mark_count_concat(lines.take(s), marked);
                assert(b.lines == (lines.take(s) + marked) + lines.skip(end));
                assert(lines.take(s) + seg + lines.skip(end) =~= lines);
                lemma_mark_count_concat(lines.take(s) + seg, lines.skip(end));
                lemma_mark_count_concat(lines.take(s), seg);
            }
        },
        Subcommand::Print => {
            lemma_mark_count_pointwise(b.lines, lines);
        },
    }
}

proof fn lemma_insert_block_mark_count(buf: BufModel, p: int, texts: Seq<Seq<char>>)
    requires
        0 <= p <= buf.lines.len(),
    ensures
        mark_count(insert_at(buf, p, texts).lines) == mark_count(buf.lines),
{
    let lines = buf.lines;
    lemma_mark_count_concat(lines.take(p) + block_lines(texts), lines.skip(p));
    lemma_mark_count_concat(lines.take(p), block_lines(texts));
    assert(insert_at(buf, p, texts).lines == (lines.take(p) + block_lines(texts)) + lines.skip(
        p,
    ));
    lemma_mark_count_none(block_lines(texts));
    assert(lines.take(p) + lines.skip(p) =~= lines);
    lemma_mark_count_concat(lines.take(p), lines.skip(p));
}

} // verus!
