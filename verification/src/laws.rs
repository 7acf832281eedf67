//! Laws of the editor, stated over the model in `model` and proved once
//! and for all. The executable engine is proved equal to that model, so
//! these laws carry over to `edit_text` directly.

use vstd::prelude::*;
use vstd::multiset::Multiset;

use crate::chars::{lex_le, views_of};
use crate::lnhash::line_hash_spec;
use crate::model::{
    BufModel, LineModel, addr_ok, block_lines, cmd_addrs_ok, copy_spec, fold_join, insert_spec,
    join_next_spec, join_range_spec, join_texts, move_spec, moved_line, new_line, origins_in,
    substitute_spec, subst_line, validate_spec,
};
use crate::parse::Command;
use crate::pattern::regex_matches;

verus! {

/// Validation rejects every script in which some command's own address
/// carries a hash different from the live content hash of its line in
/// the pristine buffer. Together with the contract of `edit_text` (an
/// invalid script yields an error and no result), this is the staleness
/// guarantee.
pub proof fn lemma_stale_address_rejected(texts: Seq<Seq<char>>, cmds: Seq<Command>, k: int)
    requires
        0 <= k < cmds.len(),
        1 <= cmds[k].addr1.lineno <= texts.len(),
        cmds[k].addr1.hash != line_hash_spec(texts[cmds[k].addr1.lineno - 1]),
    ensures
        !validate_spec(texts, cmds),
{
    assert(!addr_ok(texts, cmds[k].addr1, cmds[k].cmd));
    assert(!cmd_addrs_ok(texts, cmds[k]));
}

/// A substitute without the `g` flag is a no-op on a line without a
/// match: the text is unchanged and the modification flag is untouched.
pub proof fn lemma_substitute_no_match_noop(
    buf: BufModel,
    start: int,
    end: int,
    pat: Seq<char>,
    rep: Seq<char>,
    ci: bool,
    i: int,
)
    requires
        substitute_spec(buf, start, end, pat, rep, false, ci) is Some,
        0 <= i < buf.lines.len(),
        !regex_matches(pat, ci, buf.lines[i].text),
    ensures
        substitute_spec(buf, start, end, pat, rep, false, ci).unwrap().lines[i] == buf.lines[i],
        substitute_spec(buf, start, end, pat, rep, false, ci).unwrap().deleted == buf.deleted,
{
    let b = substitute_spec(buf, start, end, pat, rep, false, ci).unwrap();
    if start - 1 <= i <= end - 1 {
        assert(subst_line(buf.lines[i], pat, rep, false, ci) == buf.lines[i]);
    }
}

/// Inserting a non-empty block before the `0` sentinel prepends it: the
/// new first lines carry no origin and are marked modified, and the old
/// lines follow unchanged.
pub proof fn lemma_sentinel_insert_prepends(buf: BufModel, texts: Seq<Seq<char>>)
    requires
        texts.len() > 0,
    ensures
        insert_spec(buf, 0, texts) is Some,
        insert_spec(buf, 0, texts).unwrap().lines == block_lines(texts) + buf.lines,
        forall|i: int|
            0 <= i < texts.len() ==> (#[trigger] insert_spec(buf, 0, texts).unwrap().lines[i])
                .modified && insert_spec(buf, 0, texts).unwrap().lines[i].origin is None,
        insert_spec(buf, 0, texts).unwrap().deleted == buf.deleted,
{
    assert(buf.lines.take(0) =~= Seq::<LineModel>::empty());
    assert(buf.lines.skip(0) =~= buf.lines);
    let b = insert_spec(buf, 0, texts).unwrap();
    assert(b.lines =~= block_lines(texts) + buf.lines);
    assert forall|i: int| 0 <= i < texts.len() implies (#[trigger] b.lines[i]).modified
        && b.lines[i].origin is None by {
        assert(b.lines[i] == block_lines(texts)[i]);
        assert(block_lines(texts)[i] == new_line(texts[i]));
    }
}

/// A single-address join merges the addressed line with the next one
/// under the whitespace-aware separator rule, and the consumed line's
/// origin (if it has one) is recorded as deleted.
pub proof fn lemma_join_next(buf: BufModel, line: int)
    requires
        join_next_spec(buf, line) is Some,
    ensures
        join_next_spec(buf, line).unwrap().lines.len() == buf.lines.len() - 1,
        join_next_spec(buf, line).unwrap().lines[line - 1].text == join_texts(
            buf.lines[line - 1].text,
            buf.lines[line].text,
        ),
        match buf.lines[line].origin {
            Some(o) => join_next_spec(buf, line).unwrap().deleted.contains(o),
            None => join_next_spec(buf, line).unwrap().deleted == buf.deleted,
        },
{
    let b = join_next_spec(buf, line).unwrap();
    let idx = line - 1;
    assert(b.lines[idx] == buf.lines.take(idx).push(
        LineModel {
            text: join_texts(buf.lines[idx].text, buf.lines[idx + 1].text),
            modified: buf.lines[idx].modified || join_texts(
                buf.lines[idx].text,
                buf.lines[idx + 1].text,
            ) != buf.lines[idx].text,
            ..buf.lines[idx]
        },
    )[idx]);
    match buf.lines[line].origin {
        Some(o) => {
            assert(origins_in(buf.lines, line, line).contains(o));
        },
        None => {
            assert(origins_in(buf.lines, line, line) =~= Set::<usize>::empty());
            assert(b.deleted =~= buf.deleted);
        },
    }
}

/// A range join folds the whole range into one line and records every
/// consumed line's origin as deleted.
pub proof fn lemma_join_range(buf: BufModel, start: int, end: int)
    requires
        join_range_spec(buf, start, end) is Some,
        start < end,
    ensures
        join_range_spec(buf, start, end).unwrap().lines.len() == buf.lines.len() - (end - start),
        join_range_spec(buf, start, end).unwrap().lines[start - 1].text == fold_join(
            buf.lines,
            start - 1,
            end - 1,
        ),
        forall|o: usize|
            origins_in(buf.lines, start, end - 1).contains(o)
                ==> join_range_spec(buf, start, end).unwrap().deleted.contains(o),
{
    let b = join_range_spec(buf, start, end).unwrap();
    let s = start - 1;
    assert(b.lines[s] == buf.lines.take(s).push(
        LineModel {
            text: fold_join(buf.lines, s, end - 1),
            modified: buf.lines[s].modified || fold_join(buf.lines, s, end - 1)
                != buf.lines[s].text,
            ..buf.lines[s]
        },
    )[s]);
}

/// A move whose destination lies inside the moved range is rejected.
pub proof fn lemma_move_overlap_rejected(buf: BufModel, start: int, end: int, dest: int)
    requires
        start <= dest <= end,
    ensures
        move_spec(buf, start, end, dest) is None,
{
}

/// A valid move leaves the deleted set untouched and places the moved
/// lines, marked modified and keeping their origins, contiguously at
/// their final positions.
pub proof fn lemma_move_marks_and_keeps(buf: BufModel, start: int, end: int, dest: int)
    requires
        move_spec(buf, start, end, dest) is Some,
    ensures
        move_spec(buf, start, end, dest).unwrap().deleted == buf.deleted,
        ({
            let at = if dest < start {
                dest
            } else {
                dest - (end - start + 1)
            };
            forall|i: int|
                0 <= i <= end - start ==> (#[trigger] move_spec(
                    buf,
                    start,
                    end,
                    dest,
                ).unwrap().lines[at + i]) == moved_line(buf.lines[start - 1 + i])
        }),
{
    let b = move_spec(buf, start, end, dest).unwrap();
    let s = start - 1;
    let e = end - 1;
    let seg = Seq::new((end - start + 1) as nat, |i: int| moved_line(buf.lines[s + i]));
    let remain = buf.lines.take(s) + buf.lines.skip(e + 1);
    let at = if dest < start {
        dest
    } else {
        dest - (end - start + 1)
    };
    assert(crate::model::resolve_ok(buf.lines.len() as int, start, end));
    assert(1 <= dest <= buf.lines.len());
    assert(!(start <= dest <= end));
    assert(buf.lines.take(s).len() == s);
    assert(buf.lines.skip(e + 1).len() == buf.lines.len() - (e + 1));
    assert(remain.len() == buf.lines.len() - (end - start + 1));
    assert(0 <= at <= remain.len());
    assert(remain.take(at).len() == at);
    assert forall|i: int| 0 <= i <= end - start implies (#[trigger] b.lines[at + i])
        == moved_line(buf.lines[start - 1 + i]) by {
        assert(b.lines == remain.take(at) + seg + remain.skip(at));
        assert(remain.take(at).len() == at);
        assert(b.lines[at + i] == seg[i]);
    }
}

/// A copy inserts fresh, origin-less, modified clones right after the
/// destination, leaves every original line in place, and does not touch
/// the deleted set.
pub proof fn lemma_copy_clones(buf: BufModel, start: int, end: int, dest: int)
    requires
        copy_spec(buf, start, end, dest) is Some,
    ensures
        copy_spec(buf, start, end, dest).unwrap().deleted == buf.deleted,
        forall|i: int|
            0 <= i <= end - start ==> (#[trigger] copy_spec(
                buf,
                start,
                end,
                dest,
            ).unwrap().lines[dest + i]) == new_line(buf.lines[start - 1 + i].text),
        forall|i: int|
            0 <= i < dest ==> (#[trigger] copy_spec(buf, start, end, dest).unwrap().lines[i])
                == buf.lines[i],
        forall|i: int|
            dest <= i < buf.lines.len() ==> copy_spec(buf, start, end, dest).unwrap().lines[i + (
            end - start + 1)] == buf.lines[i],
{
    let b = copy_spec(buf, start, end, dest).unwrap();
    let s = start - 1;
    let seg = Seq::new((end - start + 1) as nat, |i: int| new_line(buf.lines[s + i].text));
    assert(crate::model::resolve_ok(buf.lines.len() as int, start, end));
    assert(1 <= dest <= buf.lines.len());
    assert(b.lines == buf.lines.take(dest) + seg + buf.lines.skip(dest));
    assert(buf.lines.take(dest).len() == dest);
    assert(seg.len() == end - start + 1);
    assert(buf.lines.skip(dest).len() == buf.lines.len() - dest);
    assert forall|i: int| 0 <= i <= end - start implies (#[trigger] b.lines[dest + i])
        == new_line(buf.lines[start - 1 + i].text) by {
        assert(b.lines[dest + i] == seg[i]);
    }
    assert forall|i: int| 0 <= i < dest implies (#[trigger] b.lines[i]) == buf.lines[i] by {
        assert(b.lines[i] == buf.lines.take(dest)[i]);
    }
    assert forall|i: int| dest <= i < buf.lines.len() implies b.lines[i + (end - start + 1)]
        == buf.lines[i] by {
        assert(b.lines[i + (end - start + 1)] == buf.lines.skip(dest)[i - dest]);
    }
}

/// The lines of a run are pairwise ordered by text.
pub open spec fn sorted_by_text(s: Seq<LineModel>) -> bool {
    forall|i: int, j: int|
        0 <= i < j < s.len() ==> lex_le(#[trigger] s[i].text, #[trigger] s[j].text)
}

proof fn lemma_insert_sorted_is_sorted(l: LineModel, s: Seq<LineModel>)
    requires
        sorted_by_text(s),
    ensures
        sorted_by_text(crate::model::insert_sorted(l, s)),
        crate::model::insert_sorted(l, s).len() == s.len() + 1,
        crate::model::insert_sorted(l, s)[0] == l || (s.len() > 0
            && crate::model::insert_sorted(l, s)[0] == s[0]),
    decreases s.len(),
{
    let r = crate::model::insert_sorted(l, s);
    if s.len() == 0 {
    } else if lex_le(s[0].text, l.text) {
        let t = s.skip(1);
        assert(forall|i: int| 0 <= i < t.len() ==> t[i] == s[i + 1]);
        lemma_insert_sorted_is_sorted(l, t);
        let rt = crate::model::insert_sorted(l, t);
        assert(r =~= seq![s[0]] + rt);
        assert forall|i: int, j: int| 0 <= i < j < r.len() implies lex_le(
            #[trigger] r[i].text,
            #[trigger] r[j].text,
        ) by {
            if i == 0 {
                if rt[j - 1] == l || (t.len() > 0 && rt[j - 1] == t[0]) {
                } else {
                    assert(lex_le(rt[0].text, rt[j - 1].text));
                }
                if j - 1 > 0 {
                    assert(lex_le(rt[0].text, rt[j - 1].text));
                    if rt[0] == l {
                        crate::chars::lemma_lex_le_trans(s[0].text, l.text, rt[j - 1].text);
                    } else {
                        assert(t.len() > 0 && rt[0] == t[0]);
                        crate::chars::lemma_lex_le_trans(s[0].text, t[0].text, rt[j - 1].text);
                    }
                } else {
                    if rt[0] == l {
                    } else {
                        assert(t.len() > 0 && rt[0] == t[0]);
                    }
                }
            } else {
                assert(r[i] == rt[i - 1] && r[j] == rt[j - 1]);
            }
        }
    } else {
        crate::chars::lemma_lex_le_total(s[0].text, l.text);
        assert(r =~= seq![l] + s);
        assert forall|i: int, j: int| 0 <= i < j < r.len() implies lex_le(
            #[trigger] r[i].text,
            #[trigger] r[j].text,
        ) by {
            if i == 0 {
                if j == 1 {
                } else {
                    assert(lex_le(s[0].text, s[j - 1].text));
                    crate::chars::lemma_lex_le_trans(l.text, s[0].text, s[j - 1].text);
                }
            } else {
                assert(r[i] == s[i - 1] && r[j] == s[j - 1]);
            }
        }
    }
}

proof fn lemma_insert_sorted_multiset(l: LineModel, s: Seq<LineModel>)
    ensures
        crate::model::texts_of(crate::model::insert_sorted(l, s)).to_multiset()
            =~= crate::model::texts_of(s).to_multiset().insert(l.text),
    decreases s.len(),
{
    broadcast use vstd::seq_lib::group_to_multiset_ensures;

    let r = crate::model::insert_sorted(l, s);
    if s.len() == 0 {
        assert(crate::model::texts_of(r) =~= Seq::<Seq<char>>::empty().push(l.text));
        assert(crate::model::texts_of(s) =~= Seq::<Seq<char>>::empty());
    } else if lex_le(s[0].text, l.text) {
        let t = s.skip(1);
        lemma_insert_sorted_multiset(l, t);
        let rt = crate::model::insert_sorted(l, t);
        assert(crate::model::texts_of(r) =~= seq![s[0].text] + crate::model::texts_of(rt));
        assert(crate::model::texts_of(s) =~= seq![s[0].text] + crate::model::texts_of(t));
        vstd::seq_lib::lemma_multiset_commutative(
            seq![s[0].text],
            crate::model::texts_of(rt),
        );
        vstd::seq_lib::lemma_multiset_commutative(seq![s[0].text], crate::model::texts_of(t));
    } else {
        assert(crate::model::texts_of(r) =~= seq![l.text] + crate::model::texts_of(s));
        vstd::seq_lib::lemma_multiset_commutative(seq![l.text], crate::model::texts_of(s));
        assert(seq![l.text].to_multiset() =~= Multiset::<Seq<char>>::empty().insert(l.text));
        assert(seq![l.text].to_multiset().add(crate::model::texts_of(s).to_multiset())
            =~= crate::model::texts_of(s).to_multiset().insert(l.text));
    }
}

proof fn lemma_sort_lines_sorted_permutes(s: Seq<LineModel>)
    ensures
        sorted_by_text(crate::model::sort_lines(s)),
        crate::model::sort_lines(s).len() == s.len(),
        crate::model::texts_of(crate::model::sort_lines(s)).to_multiset()
            =~= crate::model::texts_of(s).to_multiset(),
    decreases s.len(),
{
    broadcast use vstd::seq_lib::group_to_multiset_ensures;

    if s.len() == 0 {
        assert(crate::model::texts_of(s) =~= Seq::<Seq<char>>::empty());
    } else {
        let pre = s.drop_last();
        lemma_sort_lines_sorted_permutes(pre);
        lemma_insert_sorted_is_sorted(s.last(), crate::model::sort_lines(pre));
        lemma_insert_sorted_multiset(s.last(), crate::model::sort_lines(pre));
        assert(crate::model::texts_of(s) =~= crate::model::texts_of(pre).push(s.last().text));
        assert(crate::model::texts_of(s).to_multiset() =~= crate::model::texts_of(
            pre,
        ).to_multiset().insert(s.last().text));
    }
}

/// A sort touches only the addressed subrange: outside it every line is
/// unchanged; inside it the lines come out ordered by text, and they are
/// a permutation (as texts) of what was there.
pub proof fn lemma_sort_subrange(buf: BufModel, start: int, end: int)
    requires
        crate::model::sort_spec(buf, start, end) is Some,
        start < end,
    ensures
        crate::model::sort_spec(buf, start, end).unwrap().lines.len() == buf.lines.len(),
        forall|i: int|
            0 <= i < start - 1 ==> (#[trigger] crate::model::sort_spec(
                buf,
                start,
                end,
            ).unwrap().lines[i]) == buf.lines[i],
        forall|i: int|
            end <= i < buf.lines.len() ==> (#[trigger] crate::model::sort_spec(
                buf,
                start,
                end,
            ).unwrap().lines[i]) == buf.lines[i],
        sorted_by_text(
            crate::model::sort_spec(buf, start, end).unwrap().lines.subrange(start - 1, end),
        ),
        crate::model::texts_of(
            crate::model::sort_spec(buf, start, end).unwrap().lines.subrange(start - 1, end),
        ).to_multiset() == crate::model::texts_of(
            buf.lines.subrange(start - 1, end),
        ).to_multiset(),
        crate::model::sort_spec(buf, start, end).unwrap().deleted == buf.deleted,
{
    let b = crate::model::sort_spec(buf, start, end).unwrap();
    let s = start - 1;
    let seg = buf.lines.subrange(s, end);
    let sorted = crate::model::sort_lines(seg);
    lemma_sort_lines_sorted_permutes(seg);
    let marked = if crate::model::texts_of(sorted) != crate::model::texts_of(seg) {
        crate::model::mark_all_modified(sorted)
    } else {
        sorted
    };
    assert(b.lines == buf.lines.take(s) + marked + buf.lines.skip(end));
    assert(buf.lines.take(s).len() == s);
    assert(marked.len() == end - s);
    assert(b.lines.subrange(s, end) =~= marked);
    assert forall|i: int| 0 <= i < s implies (#[trigger] b.lines[i]) == buf.lines[i] by {
        assert(b.lines[i] == buf.lines.take(s)[i]);
    }
    assert forall|i: int| end <= i < buf.lines.len() implies (#[trigger] b.lines[i])
        == buf.lines[i] by {
        assert(b.lines[i] == buf.lines.skip(end)[i - end]);
    }
    assert(crate::model::texts_of(marked) =~= crate::model::texts_of(sorted));
    assert(sorted_by_text(marked)) by {
        assert forall|i: int, j: int| 0 <= i < j < marked.len() implies lex_le(
            #[trigger] marked[i].text,
            #[trigger] marked[j].text,
        ) by {
            assert(marked[i].text == sorted[i].text);
            assert(marked[j].text == sorted[j].text);
        }
    }
}

/// Whether a line is selected by a (possibly inverted) global pattern.
pub open spec fn line_selected(l: LineModel, invert: bool, pat: Seq<char>) -> bool {
    regex_matches(pat, false, l.text) != invert
}

/// The lines that survive a global-delete: everything except the
/// selected lines of the addressed range, in order, from index `i` on.
pub open spec fn surviving_lines(
    lines: Seq<LineModel>,
    start: int,
    end: int,
    invert: bool,
    pat: Seq<char>,
    i: int,
) -> Seq<LineModel>
    decreases lines.len() - i,
{
    if i < 0 || i >= lines.len() {
        Seq::empty()
    } else if start - 1 <= i <= end - 1 && line_selected(lines[i], invert, pat) {
        surviving_lines(lines, start, end, invert, pat, i + 1)
    } else {
        seq![lines[i]] + surviving_lines(lines, start, end, invert, pat, i + 1)
    }
}

/// The origins of the selected lines of the addressed range, from index
/// `i` on.
pub open spec fn removed_origins(
    lines: Seq<LineModel>,
    start: int,
    end: int,
    invert: bool,
    pat: Seq<char>,
    i: int,
) -> Set<usize>
    decreases lines.len() - i,
{
    if i < 0 || i >= lines.len() {
        Set::empty()
    } else {
        let rest = removed_origins(lines, start, end, invert, pat, i + 1);
        if start - 1 <= i <= end - 1 && line_selected(lines[i], invert, pat) {
            match lines[i].origin {
                Some(o) => rest.insert(o),
                None => rest,
            }
        } else {
            rest
        }
    }
}

/// The unmarked lines of a run, in order.
spec fn keep_unmarked(s: Seq<LineModel>) -> Seq<LineModel>
    decreases s.len(),
{
    if s.len() == 0 {
        Seq::empty()
    } else if s[0].mark {
        keep_unmarked(s.skip(1))
    } else {
        seq![s[0]] + keep_unmarked(s.skip(1))
    }
}

/// The origins of the marked lines of a run.
spec fn marked_origins(s: Seq<LineModel>) -> Set<usize>
    decreases s.len(),
{
    if s.len() == 0 {
        Set::empty()
    } else {
        let rest = marked_origins(s.skip(1));
        if s[0].mark {
            match s[0].origin {
                Some(o) => rest.insert(o),
                None => rest,
            }
        } else {
            rest
        }
    }
}

proof fn lemma_origins_single(lines: Seq<LineModel>, i: int)
    requires
        0 <= i < lines.len(),
    ensures
        origins_in(lines, i, i) =~= (match lines[i].origin {
            Some(o) => Set::<usize>::empty().insert(o),
            None => Set::<usize>::empty(),
        }),
{
    assert forall|x: usize| origins_in(lines, i, i).contains(x) implies (match lines[i].origin {
        Some(o) => Set::<usize>::empty().insert(o),
        None => Set::<usize>::empty(),
    }).contains(x) by {
        let w = choose|w: int| i <= w <= i && 0 <= w < lines.len() && lines[w].origin == Some(x);
        assert(w == i);
    }
}

/// The rescan walk with a deleting inner operation: from a state whose
/// positions before `idx` are unmarked, it removes exactly the marked
/// lines at or after `idx`, recording their origins.
proof fn lemma_run_global_delete(buf: BufModel, idx: int)
    requires
        0 <= idx <= buf.lines.len(),
        forall|k: int| 0 <= k < idx ==> !(#[trigger] buf.lines[k]).mark,
    ensures
        crate::model::run_global(buf, idx, crate::parse::Subcommand::Delete) == Some(
            BufModel {
                lines: buf.lines.take(idx) + keep_unmarked(buf.lines.skip(idx)),
                deleted: buf.deleted.union(marked_origins(buf.lines.skip(idx))),
            },
        ),
    decreases crate::model::mark_count(buf.lines), buf.lines.len() - idx,
{
    let op = crate::parse::Subcommand::Delete;
    let tail = buf.lines.skip(idx);
    if idx == buf.lines.len() {
        assert(tail.len() == 0);
        assert(buf.lines.take(idx) + keep_unmarked(tail) =~= buf.lines);
        assert(buf.deleted.union(marked_origins(tail)) =~= buf.deleted);
        assert(crate::model::run_global(buf, idx, op) == Some(buf));
    } else if buf.lines[idx].mark {
        let l2 = crate::model::unmark(buf.lines[idx]);
        let buf2 = BufModel { lines: buf.lines.update(idx, l2), deleted: buf.deleted };
        // The single-line delete the walk performs at this position.
        assert(crate::model::apply_op(buf2, idx + 1, idx + 1, false, op)
            == crate::model::delete_spec(buf2, idx + 1, idx + 1));
        assert(crate::model::resolve_ok(buf2.lines.len() as int, idx + 1, idx + 1));
        let b3 = crate::model::delete_spec(buf2, idx + 1, idx + 1).unwrap();
        assert(buf2.lines.take(idx) =~= buf.lines.take(idx));
        assert(buf2.lines.skip(idx + 1) =~= buf.lines.skip(idx + 1));
        assert(b3.lines == buf2.lines.take(idx) + buf2.lines.skip(idx + 1));
        // The walk makes progress: the mark count strictly drops.
        assert(buf.lines.take(idx) + buf.lines.skip(idx) =~= buf.lines);
        crate::model::lemma_mark_count_concat(buf.lines.take(idx), buf.lines.skip(idx));
        crate::model::lemma_mark_count_concat(buf.lines.take(idx), buf.lines.skip(idx + 1));
        crate::model::lemma_mark_count_none(buf.lines.take(idx));
        assert(tail =~= seq![buf.lines[idx]] + buf.lines.skip(idx + 1));
        crate::model::lemma_mark_count_concat(seq![buf.lines[idx]], buf.lines.skip(idx + 1));
        assert(crate::model::mark_count(seq![buf.lines[idx]]) == 1) by {
            assert(seq![buf.lines[idx]].drop_last() =~= Seq::<LineModel>::empty());
            assert(crate::model::mark_count(Seq::<LineModel>::empty()) == 0);
            assert(seq![buf.lines[idx]].last() == buf.lines[idx]);
        }
        assert(crate::model::mark_count(b3.lines) < crate::model::mark_count(buf.lines));
        // Recurse on the shrunken buffer.
        assert(forall|k: int| 0 <= k < idx ==> b3.lines[k] == buf.lines[k]);
        lemma_run_global_delete(b3, idx);
        assert(b3.lines.take(idx) =~= buf.lines.take(idx));
        assert(b3.lines.skip(idx) =~= buf.lines.skip(idx + 1));
        // Compose the deleted sets.
        lemma_origins_single(buf2.lines, idx);
        assert(buf2.lines[idx].origin == buf.lines[idx].origin);
        assert(tail.skip(1) =~= buf.lines.skip(idx + 1));
        assert(tail[0] == buf.lines[idx]);
        assert(b3.deleted.union(marked_origins(buf.lines.skip(idx + 1))) =~= buf.deleted.union(
            marked_origins(tail),
        ));
        assert(crate::model::run_global(buf, idx, op) == crate::model::run_global(b3, idx, op));
        assert(keep_unmarked(tail) == keep_unmarked(buf.lines.skip(idx + 1)));
    } else {
        assert(forall|k: int| 0 <= k < idx + 1 ==> !(#[trigger] buf.lines[k]).mark);
        lemma_run_global_delete(buf, idx + 1);
        assert(tail[0] == buf.lines[idx]);
        assert(tail.skip(1) =~= buf.lines.skip(idx + 1));
        assert(keep_unmarked(tail) == seq![buf.lines[idx]] + keep_unmarked(
            buf.lines.skip(idx + 1),
        ));
        assert(buf.lines.take(idx + 1) + keep_unmarked(buf.lines.skip(idx + 1))
            =~= buf.lines.take(idx) + keep_unmarked(tail));
        assert(marked_origins(tail) == marked_origins(buf.lines.skip(idx + 1)));
        assert(crate::model::run_global(buf, idx, op) == crate::model::run_global(
            buf,
            idx + 1,
            op,
        ));
    }
}

proof fn lemma_marked_bridge(
    lines: Seq<LineModel>,
    marked: Seq<LineModel>,
    start: int,
    end: int,
    invert: bool,
    pat: Seq<char>,
    i: int,
)
    requires
        0 <= i <= lines.len(),
        marked.len() == lines.len(),
        forall|k: int|
            0 <= k < lines.len() ==> #[trigger] marked[k] == (LineModel {
                mark: (start - 1 <= k <= end - 1) && line_selected(lines[k], invert, pat),
                ..lines[k]
            }),
        forall|k: int| 0 <= k < lines.len() ==> !(#[trigger] lines[k]).mark,
    ensures
        keep_unmarked(marked.skip(i)) == surviving_lines(lines, start, end, invert, pat, i),
        marked_origins(marked.skip(i)) == removed_origins(lines, start, end, invert, pat, i),
        forall|k: int|
            0 <= k < keep_unmarked(marked.skip(i)).len() ==> !(#[trigger] keep_unmarked(
                marked.skip(i),
            )[k]).mark,
    decreases lines.len() - i,
{
    let tail = marked.skip(i);
    if i == lines.len() {
        assert(tail.len() == 0);
    } else {
        lemma_marked_bridge(lines, marked, start, end, invert, pat, i + 1);
        assert(tail[0] == marked[i]);
        assert(tail.skip(1) =~= marked.skip(i + 1));
        if (start - 1 <= i <= end - 1) && line_selected(lines[i], invert, pat) {
            assert(marked[i].mark);
            assert(marked[i].origin == lines[i].origin);
        } else {
            assert(!marked[i].mark);
            assert(marked[i] == lines[i]);
            assert(keep_unmarked(tail) == seq![lines[i]] + keep_unmarked(marked.skip(i + 1)));
            assert forall|k: int| 0 <= k < keep_unmarked(tail).len() implies !(
            #[trigger] keep_unmarked(tail)[k]).mark by {
                if k > 0 {
                    assert(keep_unmarked(tail)[k] == keep_unmarked(marked.skip(i + 1))[k - 1]);
                }
            }
        }
    }
}

/// A global (`g`) or inverted global (`g!`/`v`) whose inner operation is
/// Delete removes exactly the selected lines of the addressed range —
/// every matching line, or every non-matching line when inverted — in
/// one pass, records their origins as deleted, and leaves every other
/// line untouched: the rescan-without-advancing walk compensates for the
/// index shift each deletion causes.
pub proof fn lemma_global_delete(
    buf: BufModel,
    start: int,
    end: int,
    invert: bool,
    pat: Seq<char>,
)
    requires
        crate::model::resolve_ok(buf.lines.len() as int, start, end),
        crate::pattern::regex_builds(pat, false),
        forall|k: int| 0 <= k < buf.lines.len() ==> !(#[trigger] buf.lines[k]).mark,
    ensures
        crate::model::global_spec(buf, start, end, invert, pat, crate::parse::Subcommand::Delete)
            == Some(
            BufModel {
                lines: surviving_lines(buf.lines, start, end, invert, pat, 0),
                deleted: buf.deleted.union(removed_origins(buf.lines, start, end, invert, pat, 0)),
            },
        ),
{
    let op = crate::parse::Subcommand::Delete;
    let marked = Seq::new(
        buf.lines.len(),
        |i: int|
            LineModel {
                mark: (start - 1 <= i <= end - 1) && (regex_matches(pat, false, buf.lines[i].text)
                    != invert),
                ..buf.lines[i]
            },
    );
    let mbuf = BufModel { lines: marked, deleted: buf.deleted };
    lemma_run_global_delete(mbuf, 0);
    assert(marked.take(0) =~= Seq::<LineModel>::empty());
    assert(marked.skip(0) =~= marked);
    lemma_marked_bridge(buf.lines, marked, start, end, invert, pat, 0);
    let survivors = surviving_lines(buf.lines, start, end, invert, pat, 0);
    assert(Seq::<LineModel>::empty() + keep_unmarked(marked) =~= survivors);
    let walked = crate::model::run_global(mbuf, 0, op).unwrap();
    assert(walked.lines == survivors);
    assert(crate::model::clear_marks(survivors) =~= survivors) by {
        assert forall|k: int| 0 <= k < survivors.len() implies crate::model::clear_marks(
            survivors,
        )[k] == survivors[k] by {
            assert(!survivors[k].mark);
            assert(crate::model::clear_marks(survivors)[k] == crate::model::unmark(
                survivors[k],
            ));
        }
    }
}

/// No origin is carried by two lines at once.
pub open spec fn origins_unique(lines: Seq<LineModel>) -> bool {
    forall|i: int, j: int|
        0 <= i < j < lines.len() && (#[trigger] lines[i]).origin is Some ==> lines[i].origin != (
        #[trigger] lines[j]).origin
}

/// Every line origin lies in the pristine range `1 ..= n0`.
pub open spec fn origins_bounded(lines: Seq<LineModel>, n0: int) -> bool {
    forall|i: int|
        0 <= i < lines.len() && (#[trigger] lines[i]).origin is Some ==> 1 <= lines[i].origin.unwrap() <= n0
}

/// A recorded-deleted origin has no surviving line, and lies in the
/// pristine range.
pub open spec fn deleted_ok(buf: BufModel, n0: int) -> bool {
    &&& (forall|i: int|
        0 <= i < buf.lines.len() && (#[trigger] buf.lines[i]).origin is Some
            ==> !buf.deleted.contains(buf.lines[i].origin.unwrap()))
    &&& (forall|o: usize| buf.deleted.contains(o) ==> 1 <= o <= n0)
}

/// The buffer bookkeeping invariant of the engine: unique, bounded
/// origins, and a deleted set disjoint from the surviving lines.
pub open spec fn buf_inv(buf: BufModel, n0: int) -> bool {
    &&& origins_unique(buf.lines)
    &&& origins_bounded(buf.lines, n0)
    &&& deleted_ok(buf, n0)
}

/// Removing `[s, e)` and recording exactly its origins preserves the
/// invariant.
proof fn lemma_inv_remove(buf: BufModel, s: int, e: int, n0: int)
    requires
        buf_inv(buf, n0),
        0 <= s <= e <= buf.lines.len(),
    ensures
        buf_inv(
            BufModel {
                lines: buf.lines.take(s) + buf.lines.skip(e),
                deleted: buf.deleted.union(origins_in(buf.lines, s, e - 1)),
            },
            n0,
        ),
{
    let nl = buf.lines.take(s) + buf.lines.skip(e);
    let nd = buf.deleted.union(origins_in(buf.lines, s, e - 1));
    assert forall|k: int| 0 <= k < nl.len() implies #[trigger] nl[k] == buf.lines[
        if k < s {
            k
        } else {
            k + (e - s)
        }
    ] by {}
    assert forall|i: int, j: int|
        0 <= i < j < nl.len() && (#[trigger] nl[i]).origin is Some implies nl[i].origin != (
    #[trigger] nl[j]).origin by {
        let fi = if i < s {
            i
        } else {
            i + (e - s)
        };
        let fj = if j < s {
            j
        } else {
            j + (e - s)
        };
        assert(nl[i] == buf.lines[fi] && nl[j] == buf.lines[fj]);
        assert(0 <= fi < fj < buf.lines.len());
    }
    assert forall|i: int| 0 <= i < nl.len() && (#[trigger] nl[i]).origin is Some implies
        !nd.contains(nl[i].origin.unwrap()) by {
        let fi = if i < s {
            i
        } else {
            i + (e - s)
        };
        assert(nl[i] == buf.lines[fi]);
        let o = nl[i].origin.unwrap();
        if origins_in(buf.lines, s, e - 1).contains(o) {
            let w = choose|w: int|
                s <= w <= e - 1 && 0 <= w < buf.lines.len() && buf.lines[w].origin == Some(o);
            assert(w != fi);
            if w < fi {
                assert(buf.lines[w].origin != buf.lines[fi].origin);
            } else {
                assert(buf.lines[fi].origin != buf.lines[w].origin);
            }
        }
    }
    assert forall|o: usize| nd.contains(o) implies 1 <= o <= n0 by {
        if origins_in(buf.lines, s, e - 1).contains(o) {
            let w = choose|w: int|
                s <= w <= e - 1 && 0 <= w < buf.lines.len() && buf.lines[w].origin == Some(o);
        }
    }
    assert forall|i: int| 0 <= i < nl.len() && (#[trigger] nl[i]).origin is Some implies 1 <= nl[i].origin.unwrap() <= n0 by {
        let fi = if i < s {
            i
        } else {
            i + (e - s)
        };
        assert(nl[i] == buf.lines[fi]);
    }
}

/// Inserting origin-less lines anywhere preserves the invariant.
proof fn lemma_inv_insert(buf: BufModel, p: int, texts: Seq<Seq<char>>, n0: int)
    requires
        buf_inv(buf, n0),
        0 <= p <= buf.lines.len(),
    ensures
        buf_inv(crate::model::insert_at(buf, p, texts), n0),
{
    let nl = crate::model::insert_at(buf, p, texts).lines;
    let cnt = texts.len() as int;
    assert forall|k: int| 0 <= k < nl.len() implies #[trigger] nl[k] == (if k < p {
        buf.lines[k]
    } else if k < p + cnt {
        crate::model::block_lines(texts)[k - p]
    } else {
        buf.lines[k - cnt]
    }) by {
        assert(buf.lines.take(p).len() == p);
    }
    assert forall|i: int, j: int|
        0 <= i < j < nl.len() && (#[trigger] nl[i]).origin is Some implies nl[i].origin != (
    #[trigger] nl[j]).origin by {
        if (p <= i < p + cnt) || (p <= j < p + cnt) {
            assert(nl[i].origin is Some ==> !(p <= i < p + cnt));
        } else {
            let fi = if i < p {
                i
            } else {
                i - cnt
            };
            let fj = if j < p {
                j
            } else {
                j - cnt
            };
            assert(nl[i] == buf.lines[fi] && nl[j] == buf.lines[fj]);
            assert(0 <= fi < fj < buf.lines.len());
        }
    }
    assert forall|i: int| 0 <= i < nl.len() && (#[trigger] nl[i]).origin is Some implies
        !crate::model::insert_at(buf, p, texts).deleted.contains(nl[i].origin.unwrap()) && 1 <= nl[i].origin.unwrap() <= n0 by {
        assert(!(p <= i < p + cnt));
        let fi = if i < p {
            i
        } else {
            i - cnt
        };
        assert(nl[i] == buf.lines[fi]);
    }
}

/// A pointwise change that keeps every line's origin preserves the
/// invariant (the deleted set unchanged).
proof fn lemma_inv_pointwise(buf: BufModel, nl: Seq<LineModel>, n0: int)
    requires
        buf_inv(buf, n0),
        nl.len() == buf.lines.len(),
        forall|i: int| 0 <= i < nl.len() ==> (#[trigger] nl[i]).origin == buf.lines[i].origin,
    ensures
        buf_inv(BufModel { lines: nl, deleted: buf.deleted }, n0),
{
}

proof fn lemma_insert_sorted_lines_multiset(l: LineModel, s: Seq<LineModel>)
    ensures
        crate::model::insert_sorted(l, s).to_multiset() =~= s.to_multiset().insert(l),
    decreases s.len(),
{
    broadcast use vstd::seq_lib::group_to_multiset_ensures;

    let r = crate::model::insert_sorted(l, s);
    if s.len() == 0 {
        assert(r =~= Seq::<LineModel>::empty().push(l));
        assert(Seq::<LineModel>::empty().to_multiset() =~= Multiset::<LineModel>::empty());
    } else if lex_le(s[0].text, l.text) {
        lemma_insert_sorted_lines_multiset(l, s.skip(1));
        let rt = crate::model::insert_sorted(l, s.skip(1));
        assert(r =~= seq![s[0]] + rt);
        vstd::seq_lib::lemma_multiset_commutative(seq![s[0]], rt);
        vstd::seq_lib::lemma_multiset_commutative(seq![s[0]], s.skip(1));
        assert(seq![s[0]] + s.skip(1) =~= s);
    } else {
        assert(r =~= seq![l] + s);
        vstd::seq_lib::lemma_multiset_commutative(seq![l], s);
        assert(seq![l].to_multiset() =~= Multiset::<LineModel>::empty().insert(l));
    }
}

proof fn lemma_sort_lines_multiset(s: Seq<LineModel>)
    ensures
        crate::model::sort_lines(s).to_multiset() =~= s.to_multiset(),
    decreases s.len(),
{
    broadcast use vstd::seq_lib::group_to_multiset_ensures;

    if s.len() > 0 {
        lemma_sort_lines_multiset(s.drop_last());
        lemma_insert_sorted_lines_multiset(s.last(), crate::model::sort_lines(s.drop_last()));
        assert(s =~= s.drop_last().push(s.last()));
    }
}

proof fn lemma_two_indexes_count(a: Seq<LineModel>, i: int, j: int)
    requires
        0 <= i < j < a.len(),
        a[i] == a[j],
    ensures
        a.to_multiset().count(a[i]) >= 2,
{
    broadcast use vstd::seq_lib::group_to_multiset_ensures;
    broadcast use vstd::multiset::group_multiset_axioms;

    let r = a.remove(j);
    assert(r.to_multiset() =~= a.to_multiset().remove(a[j]));
    assert(r[i] == a[i]);
    assert(r.contains(a[i]));
    assert(r.to_multiset().count(a[i]) >= 1);
    assert(a.to_multiset().count(a[i]) == r.to_multiset().count(a[i]) + 1);
}

proof fn lemma_count2_two_indexes(a: Seq<LineModel>, x: LineModel)
    requires
        a.to_multiset().count(x) >= 2,
    ensures
        exists|i: int, j: int| 0 <= i < j < a.len() && (#[trigger] a[i]) == x && (#[trigger] a[j]) == x,
{
    broadcast use vstd::seq_lib::group_to_multiset_ensures;
    broadcast use vstd::multiset::group_multiset_axioms;

    assert(a.contains(x));
    let w = choose|w: int| 0 <= w < a.len() && a[w] == x;
    let r = a.remove(w);
    assert(r.to_multiset() =~= a.to_multiset().remove(x));
    assert(r.to_multiset().count(x) >= 1);
    assert(r.contains(x));
    let w2 = choose|w2: int| 0 <= w2 < r.len() && r[w2] == x;
    if w2 < w {
        assert(a[w2] == x);
        assert(0 <= w2 < w < a.len() && a[w2] == x && a[w] == x);
    } else {
        assert(a[w2 + 1] == x);
        assert(0 <= w < w2 + 1 < a.len() && a[w] == x && a[w2 + 1] == x);
    }
}

proof fn lemma_mem_index(a: Seq<LineModel>, x: LineModel)
    requires
        a.to_multiset().count(x) >= 1,
    ensures
        exists|i: int| 0 <= i < a.len() && #[trigger] a[i] == x,
{
    broadcast use vstd::seq_lib::group_to_multiset_ensures;

    assert(a.contains(x));
}

/// A permutation keeps origins unique and keeps every origin that was
/// present: stated for two runs with equal multisets.
proof fn lemma_perm_origins(seg: Seq<LineModel>, per: Seq<LineModel>)
    requires
        per.to_multiset() =~= seg.to_multiset(),
        origins_unique(seg),
    ensures
        origins_unique(per),
        forall|i: int|
            0 <= i < per.len() && (#[trigger] per[i]).origin is Some ==> exists|w: int|
                0 <= w < seg.len() && (#[trigger] seg[w]).origin == per[i].origin,
{
    broadcast use vstd::seq_lib::group_to_multiset_ensures;

    assert forall|i: int|
        0 <= i < per.len() && (#[trigger] per[i]).origin is Some implies exists|w: int|
            0 <= w < seg.len() && (#[trigger] seg[w]).origin == per[i].origin by {
        assert(per.contains(per[i]));
        assert(per.to_multiset().count(per[i]) >= 1);
        lemma_mem_index(seg, per[i]);
        let w = choose|w: int| 0 <= w < seg.len() && #[trigger] seg[w] == per[i];
        assert(seg[w].origin == per[i].origin);
    }
    assert forall|i: int, j: int|
        0 <= i < j < per.len() && (#[trigger] per[i]).origin is Some implies per[i].origin != (
    #[trigger] per[j]).origin by {
        if per[i].origin == per[j].origin {
            if per[i] == per[j] {
                lemma_two_indexes_count(per, i, j);
                lemma_count2_two_indexes(seg, per[i]);
                let (wi, wj): (int, int) = choose|wi: int, wj: int|
                    0 <= wi < wj < seg.len() && (#[trigger] seg[wi]) == per[i] && (
                    #[trigger] seg[wj]) == per[i];
                assert(seg[wi].origin is Some && seg[wi].origin == seg[wj].origin);
            } else {
                assert(per.contains(per[i]) && per.contains(per[j]));
                assert(per.to_multiset().count(per[i]) >= 1);
                assert(per.to_multiset().count(per[j]) >= 1);
                lemma_mem_index(seg, per[i]);
                lemma_mem_index(seg, per[j]);
                let wi = choose|wi: int| 0 <= wi < seg.len() && #[trigger] seg[wi] == per[i];
                let wj = choose|wj: int| 0 <= wj < seg.len() && #[trigger] seg[wj] == per[j];
                assert(wi != wj);
                if wi < wj {
                    assert(seg[wi].origin != seg[wj].origin);
                } else {
                    assert(seg[wj].origin is Some);
                    assert(seg[wj].origin != seg[wi].origin);
                }
            }
        }
    }
}

/// Every operation preserves the bookkeeping invariant.
#[verifier::rlimit(80)]
proof fn lemma_apply_op_inv(
    buf: BufModel,
    start: int,
    end: int,
    has_comma: bool,
    op: crate::parse::Subcommand,
    n0: int,
)
    requires
        buf_inv(buf, n0),
        start >= 0,
        end >= 0,
        crate::model::apply_op(buf, start, end, has_comma, op) is Some,
    ensures
        buf_inv(crate::model::apply_op(buf, start, end, has_comma, op).unwrap(), n0),
    decreases op, 2int, 0int, 0int,
{
    let b = crate::model::apply_op(buf, start, end, has_comma, op).unwrap();
    let lines = buf.lines;
    match op {
        crate::parse::Subcommand::Delete => {
            lemma_inv_remove(buf, start - 1, end, n0);
        },
        crate::parse::Subcommand::Substitute(_) => {
            lemma_inv_pointwise(buf, b.lines, n0);
        },
        crate::parse::Subcommand::Append(texts) => {
            if views_of(texts@).len() > 0 {
                let p = if start == 0 {
                    0int
                } else {
                    end
                };
                lemma_inv_insert(buf, p, views_of(texts@), n0);
            }
        },
        crate::parse::Subcommand::Insert(texts) => {
            if views_of(texts@).len() > 0 {
                let p = if start == 0 {
                    0int
                } else {
                    start - 1
                };
                lemma_inv_insert(buf, p, views_of(texts@), n0);
            }
        },
        crate::parse::Subcommand::Change(texts) => {
            lemma_inv_remove(buf, start - 1, end, n0);
            let removed = BufModel {
                lines: lines.take(start - 1) + lines.skip(end),
                deleted: buf.deleted.union(origins_in(lines, start - 1, end - 1)),
            };
            if views_of(texts@).len() > 0 {
                lemma_inv_insert(removed, start - 1, views_of(texts@), n0);
            }
        },
        crate::parse::Subcommand::Join => {
            if has_comma {
                if start != end {
                    let s = start - 1;
                    let e = end - 1;
                    let l0 = lines[s];
                    let l1 = LineModel {
                        text: fold_join(lines, s, e),
                        modified: l0.modified || fold_join(lines, s, e) != l0.text,
                        ..l0
                    };
                    let upd = BufModel { lines: lines.update(s, l1), deleted: buf.deleted };
                    lemma_inv_pointwise(buf, upd.lines, n0);
                    lemma_inv_remove(upd, s + 1, e + 1, n0);
                    assert(upd.lines.take(s + 1) =~= lines.take(s).push(l1));
                    assert(upd.lines.skip(e + 1) =~= lines.skip(e + 1));
                    crate::model::lemma_origins_congruent(upd.lines, lines, s + 1, e as int);
                    assert(b.lines =~= upd.lines.take(s + 1) + upd.lines.skip(e + 1));
                }
            } else {
                let idx = start - 1;
                let l0 = lines[idx];
                let joined = join_texts(lines[idx].text, lines[idx + 1].text);
                let l1 = LineModel {
                    text: joined,
                    modified: l0.modified || joined != l0.text,
                    ..l0
                };
                let upd = BufModel { lines: lines.update(idx, l1), deleted: buf.deleted };
                lemma_inv_pointwise(buf, upd.lines, n0);
                lemma_inv_remove(upd, idx + 1, idx + 2, n0);
                assert(upd.lines.take(idx + 1) =~= lines.take(idx).push(l1));
                assert(upd.lines.skip(idx + 2) =~= lines.skip(idx + 2));
                crate::model::lemma_origins_congruent(upd.lines, lines, idx + 1, idx + 1);
                assert(b.lines =~= upd.lines.take(idx + 1) + upd.lines.skip(idx + 2));
            }
        },
        crate::parse::Subcommand::Move { dest } => {
            let d = dest.lineno as int;
            let s = start - 1;
            let e = end - 1;
            let cnt = end - start + 1;
            let seg = Seq::new(cnt as nat, |i: int| moved_line(lines[s + i]));
            let remain = lines.take(s) + lines.skip(e + 1);
            let at = if d < start {
                d
            } else {
                d - cnt
            };
            assert(lines.take(s).len() == s);
            assert(0 <= at <= remain.len());
            assert(b.lines == remain.take(at) + seg + remain.skip(at));
            // Each final position carries the origin of a distinct source
            // position.
            let src = |k: int|
                if k < at {
                    if k < s {
                        k
                    } else {
                        k + cnt
                    }
                } else if k < at + cnt {
                    s + (k - at)
                } else {
                    if k - cnt < s {
                        k - cnt
                    } else {
                        k
                    }
                };
            assert forall|k: int| 0 <= k < b.lines.len() implies (#[trigger] b.lines[k]).origin
                == lines[src(k)].origin && 0 <= src(k) < lines.len() by {
                if k < at {
                    assert(b.lines[k] == remain[k]);
                } else if k < at + cnt {
                    assert(b.lines[k] == seg[k - at]);
                } else {
                    assert(b.lines[k] == remain[k - cnt]);
                }
            }
            assert forall|i: int, j: int|
                0 <= i < j < b.lines.len() && (#[trigger] b.lines[i]).origin is Some implies
                b.lines[i].origin != (#[trigger] b.lines[j]).origin by {
                let fi = src(i);
                let fj = src(j);
                assert(fi != fj);
                if fi < fj {
                    assert(lines[fi].origin != lines[fj].origin);
                } else {
                    assert(lines[fi].origin is Some ==> lines[fj].origin != lines[fi].origin);
                    assert(lines[fj].origin is Some ==> lines[fj].origin != lines[fi].origin);
                }
            }
            assert forall|i: int|
                0 <= i < b.lines.len() && (#[trigger] b.lines[i]).origin is Some implies
                !b.deleted.contains(b.lines[i].origin.unwrap()) && 1 <= b.lines[i].origin.unwrap()
                <= n0 by {
                assert(b.lines[i].origin == lines[src(i)].origin);
            }
        },
        crate::parse::Subcommand::Copy { dest } => {
            let d = dest.lineno as int;
            let s = start - 1;
            let seg = Seq::new(
                (end - start + 1) as nat,
                |i: int| new_line(lines[s + i].text),
            );
            let st = crate::model::texts_of(lines.subrange(s, end));
            assert(seg =~= block_lines(st));
            lemma_inv_insert(buf, d, st, n0);
            assert(b.lines =~= crate::model::insert_at(buf, d, st).lines);
        },
        crate::parse::Subcommand::Global { invert, pattern, cmd } => {
            let marked = BufModel {
                lines: Seq::new(
                    lines.len(),
                    |i: int|
                        LineModel {
                            mark: (start - 1 <= i <= end - 1) && (regex_matches(
                                pattern@,
                                false,
                                lines[i].text,
                            ) != invert),
                            ..lines[i]
                        },
                ),
                deleted: buf.deleted,
            };
            lemma_inv_pointwise(buf, marked.lines, n0);
            lemma_run_global_inv(marked, 0, *cmd, n0);
            let w = crate::model::run_global(marked, 0, *cmd).unwrap();
            lemma_inv_pointwise(w, crate::model::clear_marks(w.lines), n0);
        },
        crate::parse::Subcommand::Indent { .. } => {
            lemma_inv_pointwise(buf, b.lines, n0);
        },
        crate::parse::Subcommand::Dedent { .. } => {
            lemma_inv_pointwise(buf, b.lines, n0);
        },
        crate::parse::Subcommand::Sort => {
            if start != end {
                let s = start - 1;
                let seg = lines.subrange(s, end);
                let sorted = crate::model::sort_lines(seg);
                let marked = if crate::model::texts_of(sorted) != crate::model::texts_of(seg) {
                    crate::model::mark_all_modified(sorted)
                } else {
                    sorted
                };
                lemma_sort_lines_sorted_permutes(seg);
                lemma_sort_lines_multiset(seg);
                assert(origins_unique(seg)) by {
                    assert forall|i: int, j: int|
                        0 <= i < j < seg.len() && (#[trigger] seg[i]).origin is Some implies
                        seg[i].origin != (#[trigger] seg[j]).origin by {
                        assert(seg[i] == lines[s + i] && seg[j] == lines[s + j]);
                    }
                }
                lemma_perm_origins(seg, sorted);
                assert(b.lines == lines.take(s) + marked + lines.skip(end));
                assert(lines.take(s).len() == s);
                assert(marked.len() == end - s);
                let src = |k: int|
                    if k < s {
                        k
                    } else if k < end {
                        k
                    } else {
                        k
                    };
                assert forall|i: int, j: int|
                    0 <= i < j < b.lines.len() && (#[trigger] b.lines[i]).origin is Some implies
                    b.lines[i].origin != (#[trigger] b.lines[j]).origin by {
                    lemma_sort_inv_pair(buf, start, end, i, j, n0);
                }
                assert forall|i: int|
                    0 <= i < b.lines.len() && (#[trigger] b.lines[i]).origin is Some implies
                    !b.deleted.contains(b.lines[i].origin.unwrap()) && 1 <= b.lines[
                        i
                    ].origin.unwrap() <= n0 by {
                    if s <= i < end {
                        assert(b.lines[i] == marked[i - s]);
                        assert(marked[i - s].origin == sorted[i - s].origin);
                        let w = choose|w: int|
                            0 <= w < seg.len() && (#[trigger] seg[w]).origin == sorted[i
                                - s].origin;
                        assert(seg[w] == lines[s + w]);
                    } else if i < s {
                        assert(b.lines[i] == lines[i]);
                    } else {
                        assert(b.lines[i] == lines[i]);
                    }
                }
            }
        },
        crate::parse::Subcommand::Print => {
            lemma_inv_pointwise(buf, b.lines, n0);
        },
    }
}

/// One pair of final positions after a sort carries distinct origins.
#[verifier::rlimit(60)]
proof fn lemma_sort_inv_pair(buf: BufModel, start: int, end: int, i: int, j: int, n0: int)
    requires
        buf_inv(buf, n0),
        crate::model::sort_spec(buf, start, end) is Some,
        start != end,
        0 <= i < j < crate::model::sort_spec(buf, start, end).unwrap().lines.len(),
        crate::model::sort_spec(buf, start, end).unwrap().lines[i].origin is Some,
    ensures
        crate::model::sort_spec(buf, start, end).unwrap().lines[i].origin
            != crate::model::sort_spec(buf, start, end).unwrap().lines[j].origin,
{
    let lines = buf.lines;
    let b = crate::model::sort_spec(buf, start, end).unwrap();
    let s = start - 1;
    let seg = lines.subrange(s, end);
    let sorted = crate::model::sort_lines(seg);
    let marked = if crate::model::texts_of(sorted) != crate::model::texts_of(seg) {
        crate::model::mark_all_modified(sorted)
    } else {
        sorted
    };
    lemma_sort_lines_sorted_permutes(seg);
    lemma_sort_lines_multiset(seg);
    assert(origins_unique(seg)) by {
        assert forall|x: int, y: int|
            0 <= x < y < seg.len() && (#[trigger] seg[x]).origin is Some implies seg[x].origin
            != (#[trigger] seg[y]).origin by {
            assert(seg[x] == lines[s + x] && seg[y] == lines[s + y]);
        }
    }
    lemma_perm_origins(seg, sorted);
    assert(b.lines == lines.take(s) + marked + lines.skip(end));
    assert(lines.take(s).len() == s);
    assert(marked.len() == end - s);
    assert(forall|k: int| s <= k < end ==> (#[trigger] b.lines[k]).origin == sorted[k - s].origin);
    assert(forall|k: int| 0 <= k < s ==> (#[trigger] b.lines[k]) == lines[k]);
    assert(forall|k: int|
        end <= k < b.lines.len() ==> (#[trigger] b.lines[k]) == lines[k]);
    if i < s || i >= end {
        if j < s || j >= end {
            assert(b.lines[i] == lines[i] && b.lines[j] == lines[j]);
        } else {
            // j is inside the sorted range: its origin comes from some
            // source index inside the range, distinct from i.
            if b.lines[j].origin is Some {
                let w = choose|w: int|
                    0 <= w < seg.len() && (#[trigger] seg[w]).origin == sorted[j - s].origin;
                assert(seg[w] == lines[s + w]);
                assert(s + w != i);
                if i < s + w {
                    assert(lines[i].origin != lines[s + w].origin);
                } else {
                    assert(lines[s + w].origin != lines[i].origin);
                }
            }
        }
    } else {
        if j < s || j >= end {
            let w = choose|w: int|
                0 <= w < seg.len() && (#[trigger] seg[w]).origin == sorted[i - s].origin;
            assert(seg[w] == lines[s + w]);
            assert(s + w != j);
            if s + w < j {
                assert(lines[s + w].origin != lines[j].origin);
            } else {
                assert(b.lines[j].origin is Some ==> lines[j].origin != lines[s + w].origin);
            }
        } else {
            assert(sorted[i - s].origin is Some);
            assert(origins_unique(sorted));
            assert(sorted[i - s].origin != sorted[j - s].origin);
        }
    }
}

/// The rescan walk preserves the bookkeeping invariant.
proof fn lemma_run_global_inv(buf: BufModel, idx: int, op: crate::parse::Subcommand, n0: int)
    requires
        buf_inv(buf, n0),
        crate::model::run_global(buf, idx, op) is Some,
    ensures
        buf_inv(crate::model::run_global(buf, idx, op).unwrap(), n0),
    decreases op, 3int, crate::model::mark_count(buf.lines), buf.lines.len() - idx,
{
    if idx < 0 {
    } else if idx >= buf.lines.len() {
    } else if buf.lines[idx].mark {
        let buf2 = BufModel {
            lines: buf.lines.update(idx, crate::model::unmark(buf.lines[idx])),
            deleted: buf.deleted,
        };
        lemma_inv_pointwise(buf, buf2.lines, n0);
        let b3 = crate::model::apply_op(buf2, idx + 1, idx + 1, false, op).unwrap();
        lemma_apply_op_inv(buf2, idx + 1, idx + 1, false, op, n0);
        lemma_run_global_inv(b3, idx, op, n0);
    } else {
        lemma_run_global_inv(buf, idx + 1, op, n0);
    }
}

/// The whole script preserves the bookkeeping invariant.
proof fn lemma_run_cmds_inv(buf: BufModel, cmds: Seq<Command>, i: int, n0: int)
    requires
        buf_inv(buf, n0),
        crate::model::run_cmds(buf, cmds, i) is Some,
    ensures
        buf_inv(crate::model::run_cmds(buf, cmds, i).unwrap(), n0),
    decreases cmds.len() - i,
{
    if i < cmds.len() {
        let c = cmds[i];
        let start = c.addr1.lineno as int;
        let end = if c.addr2 is Some {
            c.addr2.unwrap().lineno as int
        } else {
            start
        };
        lemma_apply_op_inv(buf, start, end, c.has_comma, c.cmd, n0);
        lemma_run_cmds_inv(
            crate::model::apply_command_spec(buf, c).unwrap(),
            cmds,
            i + 1,
            n0,
        );
    }
}

/// The deleted-set bookkeeping law: after any successful script run,
/// the recorded deleted origins all come from the pristine buffer and
/// none of them survives on a line; surviving origins are still unique.
pub proof fn lemma_deleted_origins_sound(texts: Seq<Seq<char>>, cmds: Seq<Command>)
    requires
        texts.len() <= usize::MAX,
        crate::model::run_cmds(crate::model::init_buf(texts), cmds, 0) is Some,
    ensures
        buf_inv(
            crate::model::run_cmds(crate::model::init_buf(texts), cmds, 0).unwrap(),
            texts.len() as int,
        ),
{
    let init = crate::model::init_buf(texts);
    assert(buf_inv(init, texts.len() as int)) by {
        assert forall|i: int| 0 <= i < init.lines.len() implies (#[trigger] init.lines[i]).origin
            == Some((i + 1) as usize) && 1 <= (i + 1) as usize <= texts.len() by {}
    }
    lemma_run_cmds_inv(init, cmds, 0, texts.len() as int);
}

} // verus!
